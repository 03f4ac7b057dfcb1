//! Uniform spatial grid over the world.
//!
//! The world is cut into square cells; each cell keeps the indices
//! of the agents whose position falls in it, in increasing order.
//! The grid is rebuilt from a position snapshot every tick and
//! answers "who is in the 3-by-3 block of cells around this
//! position", clamped at the world edges, so a neighbor search costs
//! the local density rather than the whole population.

use vstd::prelude::*;
use vstd::arithmetic::div_mod::{lemma_multiply_divide_lt, lemma_div_pos_is_pos};
use crate::vec2::Vec2i;
use crate::world::{CELL, COLS, ROWS, in_world};

verus! {

/// Grid column of a position.
pub open spec fn col_of(p: Vec2i) -> int {
    p.x as int / CELL as int
}

/// Grid row of a position.
pub open spec fn row_of(p: Vec2i) -> int {
    p.y as int / CELL as int
}

/// Flat cell index of a position, column-major.
pub open spec fn cell_of(p: Vec2i) -> int {
    col_of(p) * ROWS as int + row_of(p)
}

/// An in-world position indexes a valid cell.
pub proof fn lemma_cell_of_bounds(p: Vec2i)
    requires
        in_world(p),
    ensures
        0 <= col_of(p) < COLS as int,
        0 <= row_of(p) < ROWS as int,
        0 <= cell_of(p) < (COLS * ROWS) as int,
{
    lemma_div_pos_is_pos(p.x as int, CELL as int);
    lemma_div_pos_is_pos(p.y as int, CELL as int);
    lemma_multiply_divide_lt(p.x as int, CELL as int, COLS as int);
    lemma_multiply_divide_lt(p.y as int, CELL as int, ROWS as int);
    assert(col_of(p) * (ROWS as int) <= (COLS as int - 1) * (ROWS as int)) by (nonlinear_arith)
        requires
            col_of(p) <= COLS as int - 1,
            ROWS as int >= 1,
    ;
}

/// Indices among the first `n` positions whose cell is `c`, in
/// increasing order.
pub open spec fn cell_list(ps: Seq<Vec2i>, c: int, n: int) -> Seq<usize>
    decreases n,
{
    if n <= 0 {
        Seq::empty()
    } else {
        let prev = cell_list(ps, c, n - 1);
        if cell_of(ps[n - 1]) == c {
            prev.push((n - 1) as usize)
        } else {
            prev
        }
    }
}

/// The cell contents of a whole position snapshot.
pub open spec fn cells_of(ps: Seq<Vec2i>) -> Seq<Seq<usize>> {
    Seq::new((COLS * ROWS) as nat, |c: int| cell_list(ps, c, ps.len() as int))
}

/// Views of a vector of cells.
pub open spec fn views(cells: Seq<Vec<usize>>) -> Seq<Seq<usize>> {
    cells.map_values(|v: Vec<usize>| v@)
}

/// First column of the clamped 3-by-3 block around a position.
pub open spec fn c_lo(p: Vec2i) -> int {
    if col_of(p) == 0 {
        0
    } else {
        col_of(p) - 1
    }
}

/// Last column (inclusive) of the clamped block.
pub open spec fn c_hi(p: Vec2i) -> int {
    if col_of(p) >= COLS as int - 1 {
        COLS as int - 1
    } else {
        col_of(p) + 1
    }
}

/// First row of the clamped block.
pub open spec fn r_lo(p: Vec2i) -> int {
    if row_of(p) == 0 {
        0
    } else {
        row_of(p) - 1
    }
}

/// Last row (inclusive) of the clamped block.
pub open spec fn r_hi(p: Vec2i) -> int {
    if row_of(p) >= ROWS as int - 1 {
        ROWS as int - 1
    } else {
        row_of(p) + 1
    }
}

/// A position's cell lies inside the clamped block of another.
pub open spec fn in_block(center: Vec2i, q: Vec2i) -> bool {
    c_lo(center) <= col_of(q) <= c_hi(center) && r_lo(center) <= row_of(q) <= r_hi(center)
}

/// Concatenation of the cells of one column over rows `[r0, r1)`.
pub open spec fn concat_rows(cs: Seq<Seq<usize>>, c: int, r0: int, r1: int) -> Seq<usize>
    decreases r1 - r0,
{
    if r1 <= r0 {
        Seq::empty()
    } else {
        concat_rows(cs, c, r0, r1 - 1) + cs[c * ROWS as int + r1 - 1]
    }
}

/// Concatenation of the cells of a block, columns `[c0, c1)` outer,
/// rows `[r0, r1)` inner.
pub open spec fn concat_block(cs: Seq<Seq<usize>>, c0: int, c1: int, r0: int, r1: int) -> Seq<
    usize,
>
    decreases c1 - c0,
{
    if c1 <= c0 {
        Seq::empty()
    } else {
        concat_block(cs, c0, c1 - 1, r0, r1) + concat_rows(cs, c1 - 1, r0, r1)
    }
}

/// What a neighbor query over a snapshot returns: the candidate
/// indices of the clamped 3-by-3 block of cells around the position,
/// in cell order.
pub open spec fn query_sp(ps: Seq<Vec2i>, p: Vec2i) -> Seq<usize> {
    concat_block(cells_of(ps), c_lo(p), c_hi(p) + 1, r_lo(p), r_hi(p) + 1)
}

/// A cell list holds exactly the indices whose position falls in
/// that cell, each below the snapshot length.
pub proof fn lemma_cell_list_props(ps: Seq<Vec2i>, c: int, n: int)
    requires
        0 <= n <= ps.len(),
        ps.len() <= usize::MAX,
    ensures
        forall|k: int|
            0 <= k < cell_list(ps, c, n).len() ==> (#[trigger] cell_list(ps, c, n)[k]) < n
                && cell_of(ps[cell_list(ps, c, n)[k] as int]) == c,
        forall|i: int|
            0 <= i < n && cell_of(#[trigger] ps[i]) == c ==> cell_list(ps, c, n).contains(
                i as usize,
            ),
    decreases n,
{
    if n > 0 {
        lemma_cell_list_props(ps, c, n - 1);
        let prev = cell_list(ps, c, n - 1);
        let cur = cell_list(ps, c, n);
        if cell_of(ps[n - 1]) == c {
            assert(cur == prev.push((n - 1) as usize));
            assert forall|k: int| 0 <= k < cur.len() implies (#[trigger] cur[k]) < n && cell_of(
                ps[cur[k] as int],
            ) == c by {
                if k < prev.len() {
                    assert(cur[k] == prev[k]);
                } else {
                    assert(cur[k] == (n - 1) as usize);
                }
            }
            assert(forall|i: int|
                0 <= i < n - 1 && cell_of(#[trigger] ps[i]) == c ==> cur.contains(i as usize))
                by {
                assert(forall|i: int|
                    0 <= i < n - 1 && cell_of(#[trigger] ps[i]) == c ==> {
                        let k = choose|k: int| 0 <= k < prev.len() && prev[k] == i as usize;
                        cur[k] == i as usize
                    });
            }
            assert(cur[cur.len() - 1] == (n - 1) as usize);
        } else {
            assert(cur == prev);
        }
    }
}

/// Two cells are the same exactly when column and row agree.
proof fn lemma_cell_flat_unique(ca: int, ra: int, cb: int, rb: int)
    requires
        0 <= ra < ROWS as int,
        0 <= rb < ROWS as int,
        ca * ROWS as int + ra == cb * ROWS as int + rb,
    ensures
        ca == cb && ra == rb,
{
    assert(ca == cb && ra == rb) by (nonlinear_arith)
        requires
            0 <= ra < 20,
            0 <= rb < 20,
            ca * 20 + ra == cb * 20 + rb,
            ROWS == 20usize,
        ;
}

/// A column strip of the concatenation holds exactly the indices
/// whose column is `c` and whose row lies in `[r0, r1)`.
proof fn lemma_concat_rows_props(ps: Seq<Vec2i>, c: int, r0: int, r1: int)
    requires
        forall|i: int| 0 <= i < ps.len() ==> in_world(#[trigger] ps[i]),
        ps.len() <= usize::MAX,
        0 <= c < COLS as int,
        0 <= r0 <= r1 <= ROWS as int,
    ensures
        forall|k: int|
            0 <= k < concat_rows(cells_of(ps), c, r0, r1).len() ==> (#[trigger] concat_rows(
                cells_of(ps),
                c,
                r0,
                r1,
            )[k]) < ps.len() && col_of(ps[concat_rows(cells_of(ps), c, r0, r1)[k] as int]) == c
                && r0 <= row_of(ps[concat_rows(cells_of(ps), c, r0, r1)[k] as int]) < r1,
        forall|i: int|
            0 <= i < ps.len() && col_of(#[trigger] ps[i]) == c && r0 <= row_of(ps[i]) < r1
                ==> concat_rows(cells_of(ps), c, r0, r1).contains(i as usize),
    decreases r1 - r0,
{
    let cv = cells_of(ps);
    let q = concat_rows(cv, c, r0, r1);
    if r1 > r0 {
        lemma_concat_rows_props(ps, c, r0, r1 - 1);
        let a = concat_rows(cv, c, r0, r1 - 1);
        let cell = c * ROWS as int + (r1 - 1);
        assert(0 <= cell < (COLS * ROWS) as int) by (nonlinear_arith)
            requires
                cell == c * (ROWS as int) + (r1 - 1),
                0 <= c < COLS as int,
                0 <= r1 - 1 < ROWS as int,
                COLS == 30usize,
                ROWS == 20usize,
        ;
        let b = cv[cell];
        assert(b == cell_list(ps, cell, ps.len() as int));
        lemma_cell_list_props(ps, cell, ps.len() as int);
        assert(q == a + b);
        assert(forall|k: int| 0 <= k < a.len() ==> q[k] == a[k]);
        assert(forall|k: int| 0 <= k < b.len() ==> q[a.len() + k] == b[k]);
        assert(forall|k: int|
            0 <= k < b.len() ==> (#[trigger] b[k]) < ps.len() && col_of(ps[b[k] as int]) == c
                && row_of(ps[b[k] as int]) == r1 - 1) by {
            assert(forall|k: int|
                0 <= k < b.len() ==> cell_of(#[trigger] ps[b[k] as int]) == cell);
            assert forall|k: int| 0 <= k < b.len() implies col_of(ps[(#[trigger] b[k]) as int])
                == c && row_of(ps[b[k] as int]) == r1 - 1 by {
                lemma_cell_of_bounds(ps[b[k] as int]);
                lemma_cell_flat_unique(
                    col_of(ps[b[k] as int]),
                    row_of(ps[b[k] as int]),
                    c,
                    r1 - 1,
                );
            }
        }
        assert forall|i: int|
            0 <= i < ps.len() && col_of(#[trigger] ps[i]) == c && r0 <= row_of(ps[i])
                < r1 implies q.contains(i as usize) by {
            if row_of(ps[i]) < r1 - 1 {
                let k = choose|k: int| 0 <= k < a.len() && a[k] == i as usize;
                assert(q[k] == i as usize);
            } else {
                assert(cell_of(ps[i]) == cell);
                assert(b.contains(i as usize));
                let k = choose|k: int| 0 <= k < b.len() && b[k] == i as usize;
                assert(q[a.len() + k] == i as usize);
            }
        }
    }
}

/// What a query returns is sound and complete: every candidate is a
/// valid index whose cell lies in the clamped block around the
/// position, and every agent of the snapshot whose cell lies in
/// that block is a candidate. The candidate set is therefore the
/// block population: bounded by the local density of at most nine
/// cells, however large the snapshot is.
pub proof fn lemma_query_sp_props(ps: Seq<Vec2i>, p: Vec2i)
    requires
        forall|i: int| 0 <= i < ps.len() ==> in_world(#[trigger] ps[i]),
        ps.len() <= usize::MAX,
        in_world(p),
    ensures
        forall|k: int|
            0 <= k < query_sp(ps, p).len() ==> (#[trigger] query_sp(ps, p)[k]) < ps.len()
                && in_block(p, ps[query_sp(ps, p)[k] as int]),
        forall|i: int|
            0 <= i < ps.len() && in_block(p, #[trigger] ps[i]) ==> query_sp(ps, p).contains(
                i as usize,
            ),
{
    lemma_cell_of_bounds(p);
    lemma_query_block_props(ps, p, c_lo(p), c_hi(p) + 1);
}

/// Helper for the block induction over columns.
proof fn lemma_query_block_props(ps: Seq<Vec2i>, p: Vec2i, c0: int, c1: int)
    requires
        forall|i: int| 0 <= i < ps.len() ==> in_world(#[trigger] ps[i]),
        ps.len() <= usize::MAX,
        in_world(p),
        c_lo(p) <= c0 <= c1 <= c_hi(p) + 1,
        0 <= c_lo(p),
        c_hi(p) < COLS as int,
        0 <= r_lo(p) <= r_hi(p) < ROWS as int,
    ensures
        forall|k: int|
            0 <= k < concat_block(cells_of(ps), c0, c1, r_lo(p), r_hi(p) + 1).len() ==> (
            #[trigger] concat_block(cells_of(ps), c0, c1, r_lo(p), r_hi(p) + 1)[k]) < ps.len()
                && c0 <= col_of(ps[concat_block(cells_of(ps), c0, c1, r_lo(p), r_hi(p) + 1)[k] as int])
                < c1 && r_lo(p) <= row_of(
                ps[concat_block(cells_of(ps), c0, c1, r_lo(p), r_hi(p) + 1)[k] as int],
            ) <= r_hi(p),
        forall|i: int|
            0 <= i < ps.len() && c0 <= col_of(#[trigger] ps[i]) < c1 && r_lo(p) <= row_of(ps[i])
                <= r_hi(p) ==> concat_block(cells_of(ps), c0, c1, r_lo(p), r_hi(p) + 1).contains(
                i as usize,
            ),
    decreases c1 - c0,
{
    let cv = cells_of(ps);
    let q = concat_block(cv, c0, c1, r_lo(p), r_hi(p) + 1);
    if c1 > c0 {
        lemma_query_block_props(ps, p, c0, c1 - 1);
        lemma_concat_rows_props(ps, c1 - 1, r_lo(p), r_hi(p) + 1);
        let a = concat_block(cv, c0, c1 - 1, r_lo(p), r_hi(p) + 1);
        let b = concat_rows(cv, c1 - 1, r_lo(p), r_hi(p) + 1);
        assert(q == a + b);
        assert(forall|k: int| 0 <= k < a.len() ==> q[k] == a[k]);
        assert(forall|k: int| 0 <= k < b.len() ==> q[a.len() + k] == b[k]);
        assert forall|i: int|
            0 <= i < ps.len() && c0 <= col_of(#[trigger] ps[i]) < c1 && r_lo(p) <= row_of(ps[i])
                <= r_hi(p) implies q.contains(i as usize) by {
            if col_of(ps[i]) < c1 - 1 {
                let k = choose|k: int| 0 <= k < a.len() && a[k] == i as usize;
                assert(q[k] == i as usize);
            } else {
                assert(b.contains(i as usize));
                let k = choose|k: int| 0 <= k < b.len() && b[k] == i as usize;
                assert(q[a.len() + k] == i as usize);
            }
        }
    }
}

/// A cell never holds more indices than the snapshot has agents.
pub proof fn lemma_cell_list_len(ps: Seq<Vec2i>, c: int, n: int)
    requires
        0 <= n,
    ensures
        cell_list(ps, c, n).len() <= n,
    decreases n,
{
    if n > 0 {
        lemma_cell_list_len(ps, c, n - 1);
    }
}

/// A column strip holds at most one snapshot's worth per row.
proof fn lemma_concat_rows_len(ps: Seq<Vec2i>, c: int, r0: int, r1: int)
    requires
        r0 <= r1,
        0 <= c < COLS as int,
        0 <= r0,
        r1 <= ROWS as int,
    ensures
        concat_rows(cells_of(ps), c, r0, r1).len() <= (r1 - r0) * ps.len(),
    decreases r1 - r0,
{
    let cv = cells_of(ps);
    if r1 > r0 {
        lemma_concat_rows_len(ps, c, r0, r1 - 1);
        let cell = c * ROWS as int + (r1 - 1);
        assert(0 <= cell < (COLS * ROWS) as int) by (nonlinear_arith)
            requires
                cell == c * (ROWS as int) + (r1 - 1),
                0 <= c < COLS as int,
                0 <= r1 - 1 < ROWS as int,
                COLS == 30usize,
                ROWS == 20usize,
        ;
        lemma_cell_list_len(ps, cell, ps.len() as int);
        assert((r1 - 1 - r0) * ps.len() + ps.len() == (r1 - r0) * ps.len()) by (nonlinear_arith);
    } else {
        assert((r1 - r0) * ps.len() == 0) by (nonlinear_arith)
            requires
                r1 == r0,
        ;
    }
}

/// A block holds at most one snapshot's worth per cell.
proof fn lemma_concat_block_len(ps: Seq<Vec2i>, c0: int, c1: int, r0: int, r1: int)
    requires
        c0 <= c1,
        r0 <= r1,
        0 <= c0,
        c1 <= COLS as int,
        0 <= r0,
        r1 <= ROWS as int,
    ensures
        concat_block(cells_of(ps), c0, c1, r0, r1).len() <= (c1 - c0) * (r1 - r0) * ps.len(),
    decreases c1 - c0,
{
    if c1 > c0 {
        lemma_concat_block_len(ps, c0, c1 - 1, r0, r1);
        lemma_concat_rows_len(ps, c1 - 1, r0, r1);
        assert((c1 - 1 - c0) * (r1 - r0) * ps.len() + (r1 - r0) * ps.len() == (c1 - c0) * (r1 - r0)
            * ps.len()) by (nonlinear_arith);
    } else {
        assert((c1 - c0) * (r1 - r0) * ps.len() == 0) by (nonlinear_arith)
            requires
                c1 == c0,
        ;
    }
}

/// A query's candidate set is at most nine cells' worth of agents:
/// the cost of a neighbor search is the local block population, not
/// the whole world.
pub proof fn lemma_query_sp_len(ps: Seq<Vec2i>, p: Vec2i)
    requires
        in_world(p),
    ensures
        query_sp(ps, p).len() <= 9 * ps.len(),
{
    lemma_cell_of_bounds(p);
    lemma_concat_block_len(ps, c_lo(p), c_hi(p) + 1, r_lo(p), r_hi(p) + 1);
    assert((c_hi(p) + 1 - c_lo(p)) * (r_hi(p) + 1 - r_lo(p)) * ps.len() <= 9 * ps.len())
        by (nonlinear_arith)
        requires
            1 <= c_hi(p) + 1 - c_lo(p) <= 3,
            1 <= r_hi(p) + 1 - r_lo(p) <= 3,
    ;
}

/// A grid query at a member's own position always finds that
/// member: the candidate set of an agent of the snapshot is never
/// empty.
pub proof fn lemma_query_self(ps: Seq<Vec2i>, i: int)
    requires
        forall|j: int| 0 <= j < ps.len() ==> in_world(#[trigger] ps[j]),
        ps.len() <= usize::MAX,
        0 <= i < ps.len(),
    ensures
        query_sp(ps, ps[i]).contains(i as usize),
        query_sp(ps, ps[i]).len() > 0,
{
    lemma_query_sp_props(ps, ps[i]);
    assert(in_block(ps[i], ps[i]));
    let q = query_sp(ps, ps[i]);
    assert(q.contains(i as usize));
    let k = choose|k: int| 0 <= k < q.len() && q[k] == i as usize;
    assert(q.len() > 0);
}

/// The uniform grid: one list of agent indices per cell.
pub struct Grid {
    /// Cell contents, flat, column-major.
    pub cells: Vec<Vec<usize>>,
}

impl Grid {
    /// The cell vector has exactly one entry per cell.
    pub open spec fn basic_wf(self) -> bool {
        self.cells@.len() == (COLS * ROWS) as int
    }

    /// The grid holds exactly the cell contents of a snapshot.
    pub open spec fn wf(self, ps: Seq<Vec2i>) -> bool {
        self.basic_wf() && views(self.cells@) == cells_of(ps)
    }

    /// Build the grid from a position snapshot: every agent index is
    /// appended to the cell its position falls in.
    pub fn build(ps: &Vec<Vec2i>) -> (g: Grid)
        requires
            forall|i: int| 0 <= i < ps@.len() ==> in_world(#[trigger] ps@[i]),
        ensures
            g.wf(ps@),
    {
        let mut cells: Vec<Vec<usize>> = Vec::new();
        let total: usize = COLS * ROWS;
        while cells.len() < total
            invariant
                total == COLS * ROWS,
                cells@.len() <= total,
                forall|c: int| 0 <= c < cells@.len() ==> (#[trigger] cells@[c])@ == Seq::<
                    usize,
                >::empty(),
            decreases total - cells.len(),
        {
            cells.push(Vec::new());
        }
        let n = ps.len();
        proof {
            assert(forall|c: int|
                0 <= c < 600 ==> cell_list(ps@, c, 0) == Seq::<usize>::empty());
        }
        for i in 0..n
            invariant
                n == ps@.len(),
                forall|j: int| 0 <= j < ps@.len() ==> in_world(#[trigger] ps@[j]),
                cells@.len() == COLS * ROWS,
                forall|c: int|
                    0 <= c < cells@.len() ==> (#[trigger] cells@[c])@ == cell_list(
                        ps@,
                        c,
                        i as int,
                    ),
        {
            proof {
                lemma_cell_of_bounds(ps@[i as int]);
            }
            let col: usize = (ps[i].x / CELL) as usize;
            let row: usize = (ps[i].y / CELL) as usize;
            let c: usize = col * ROWS + row;
            cells[c].push(i);
        }
        let g = Grid { cells };
        proof {
            assert(views(g.cells@) =~~= cells_of(ps@));
        }
        g
    }

    /// Collect the candidate neighbor indices for a position: the
    /// contents of the clamped 3-by-3 block of cells around it, in
    /// cell order. Over the snapshot the grid was built from, the
    /// result is exactly `query_sp`: every index in the block's
    /// cells, and nothing else.
    pub fn query(&self, p: Vec2i) -> (r: Vec<usize>)
        requires
            self.basic_wf(),
            in_world(p),
        ensures
            r@ == concat_block(views(self.cells@), c_lo(p), c_hi(p) + 1, r_lo(p), r_hi(p) + 1),
    {
        proof {
            lemma_cell_of_bounds(p);
        }
        let col: usize = (p.x / CELL) as usize;
        let row: usize = (p.y / CELL) as usize;
        let cs: usize = if col == 0 {
            0
        } else {
            col - 1
        };
        let ce: usize = if col + 1 >= COLS {
            COLS - 1
        } else {
            col + 1
        };
        let rs: usize = if row == 0 {
            0
        } else {
            row - 1
        };
        let re: usize = if row + 1 >= ROWS {
            ROWS - 1
        } else {
            row + 1
        };
        let mut out: Vec<usize> = Vec::new();
        let ghost cv = views(self.cells@);
        for cc in cs..(ce + 1)
            invariant
                self.basic_wf(),
                cv == views(self.cells@),
                cs == c_lo(p),
                ce == c_hi(p),
                rs == r_lo(p),
                re == r_hi(p),
                cs <= cc <= ce + 1 <= COLS,
                rs <= re < ROWS,
                out@ == concat_block(cv, cs as int, cc as int, rs as int, re as int + 1),
        {
            for rr in rs..(re + 1)
                invariant
                    self.basic_wf(),
                    cv == views(self.cells@),
                    cs == c_lo(p),
                    ce == c_hi(p),
                    rs == r_lo(p),
                    re == r_hi(p),
                    cs <= cc <= ce < COLS,
                    rs <= rr <= re + 1 <= ROWS,
                    out@ == concat_block(cv, cs as int, cc as int, rs as int, re as int + 1)
                        + concat_rows(cv, cc as int, rs as int, rr as int),
            {
                let idx: usize = cc * ROWS + rr;
                proof {
                    assert((cc as int) * (ROWS as int) + (rr as int) < 600) by (nonlinear_arith)
                        requires
                            0 <= cc as int <= COLS as int - 1,
                            0 <= rr as int <= ROWS as int - 1,
                            COLS == 30usize,
                            ROWS == 20usize,
                    ;
                }
                let m = self.cells[idx].len();
                let ghost out0 = out@;
                for k in 0..m
                    invariant
                        self.basic_wf(),
                        cv == views(self.cells@),
                        idx == cc * ROWS + rr < 600,
                        m == self.cells@[idx as int]@.len(),
                        out@ == out0 + cv[idx as int].take(k as int),
                {
                    let e: usize = self.cells[idx][k];
                    out.push(e);
                    proof {
                        assert(cv[idx as int].take(k as int + 1) =~= cv[idx as int].take(
                            k as int,
                        ).push(e));
                    }
                }
                proof {
                    assert(cv[idx as int].take(m as int) =~= cv[idx as int]);
                    assert(out@ =~= concat_block(cv, cs as int, cc as int, rs as int, re as int + 1)
                        + concat_rows(cv, cc as int, rs as int, rr as int + 1));
                }
            }
            proof {
                assert(out@ =~= concat_block(
                    cv,
                    cs as int,
                    cc as int + 1,
                    rs as int,
                    re as int + 1,
                ));
            }
        }
        out
    }
}

} // verus!
