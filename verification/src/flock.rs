//! The flock: the whole population, advanced one tick at a time.
//!
//! A tick reads a frozen snapshot of every agent, rebuilds the grid
//! from it, gathers each agent's candidate neighbors from the grid,
//! and only then mutates that agent — later agents still see the
//! world as of the start of the tick, never a half-updated one.

use vstd::prelude::*;
use crate::vec2::Vec2i;
use crate::world::in_world;
use crate::boid::{
    Boid, POP_MAX, DT_MAX, SPAWN_VEL_MAX, vel_upd, pos_upd, forces2,
};
use crate::grid::{
    Grid, query_sp, cells_of, views, lemma_query_sp_props, lemma_query_sp_len, lemma_query_self,
};

verus! {

/// The positions of a boid sequence, in order.
pub open spec fn positions_of(bs: Seq<Boid>) -> Seq<Vec2i> {
    bs.map_values(|b: Boid| b.position)
}

/// The candidate neighbor set one agent is steered against for one
/// tick: the snapshot members whose cells lie in the grid block
/// around it, or the agent alone when that set is empty.
pub open spec fn neighbors_sp(bs: Seq<Boid>, i: int) -> Seq<Boid> {
    let q = query_sp(positions_of(bs), bs[i].position);
    let g = q.map_values(|j: usize| bs[j as int]);
    if g.len() == 0 {
        seq![bs[i]]
    } else {
        g
    }
}

/// A member of the population always finds at least itself in its
/// candidate neighbor set: a tick never steers an agent against an
/// empty collection.
pub proof fn lemma_neighbors_nonempty(bs: Seq<Boid>, i: int)
    requires
        forall|j: int| 0 <= j < bs.len() ==> in_world((#[trigger] bs[j]).position),
        bs.len() <= usize::MAX,
        0 <= i < bs.len(),
    ensures
        neighbors_sp(bs, i).len() > 0,
        neighbors_sp(bs, i).contains(bs[i]),
{
    let ps = positions_of(bs);
    assert(ps.len() == bs.len());
    assert(forall|j: int| 0 <= j < ps.len() ==> in_world(#[trigger] ps[j]));
    lemma_query_self(ps, i);
    let q = query_sp(ps, ps[i]);
    assert(ps[i] == bs[i].position);
    let k = choose|k: int| 0 <= k < q.len() && q[k] == i as usize;
    let g = q.map_values(|j: usize| bs[j as int]);
    assert(g[k] == bs[i]);
    assert(neighbors_sp(bs, i) == g);
    assert(neighbors_sp(bs, i).contains(bs[i]));
}

/// How one tick transforms one agent: the steering forces are
/// computed against the snapshot neighbors, integrated, and the
/// identity and tuning stay; a zero time step moves nothing.
pub open spec fn stepped(b0: Boid, nb: Seq<Boid>, bi: Boid, dt: int) -> bool {
    &&& bi.id == b0.id
    &&& bi.max_speed == b0.max_speed
    &&& bi.max_force == b0.max_force
    &&& (bi.velocity.x as int, bi.velocity.y as int) == vel_upd(b0.vel2(), forces2(b0, nb), dt)
    &&& (bi.position.x as int, bi.position.y as int) == pos_upd(
        b0.pos2(),
        (bi.velocity.x as int, bi.velocity.y as int),
        dt,
    )
    &&& bi.acceleration.is_zero()
    &&& (dt == 0 ==> bi.velocity == b0.velocity && bi.position == b0.position)
}

/// The population, advanced together once per frame.
pub struct Flock {
    /// Flock identifier, reserved for multi-flock control.
    pub flockid: usize,
    /// The agents, owned in stable order; an agent's `id` is its
    /// index here.
    pub boids: Vec<Boid>,
}

impl Flock {
    /// Every agent is well-formed and numbered by its index.
    pub open spec fn wf(self) -> bool {
        &&& self.boids@.len() <= POP_MAX
        &&& forall|i: int|
            0 <= i < self.boids@.len() ==> (#[trigger] self.boids@[i]).wf()
                && self.boids@[i].id == i
    }

    /// Spawn a population of the requested size, each agent with a
    /// random position in the world and a velocity whose components
    /// lie in the small symmetric spawn range.
    pub fn new(amt: usize) -> (r: Flock)
        requires
            amt <= POP_MAX,
        ensures
            r.wf(),
            r.boids@.len() == amt,
            r.flockid == 1,
            forall|i: int|
                0 <= i < r.boids@.len() ==> -SPAWN_VEL_MAX <= (#[trigger] r.boids@[i]).velocity.x
                    <= SPAWN_VEL_MAX && -SPAWN_VEL_MAX <= r.boids@[i].velocity.y <= SPAWN_VEL_MAX,
    {
        let mut boids: Vec<Boid> = Vec::new();
        while boids.len() < amt
            invariant
                boids@.len() <= amt,
                forall|i: int|
                    0 <= i < boids@.len() ==> (#[trigger] boids@[i]).wf() && boids@[i].id == i,
                forall|i: int|
                    0 <= i < boids@.len() ==> -SPAWN_VEL_MAX <= (#[trigger] boids@[i]).velocity.x
                        <= SPAWN_VEL_MAX && -SPAWN_VEL_MAX <= boids@[i].velocity.y
                        <= SPAWN_VEL_MAX,
            decreases amt - boids.len(),
        {
            let b = Boid::spawn(boids.len());
            boids.push(b);
        }
        Flock { flockid: 1, boids }
    }

    /// Assemble a flock from explicit agents; each must carry its
    /// index as identity.
    pub fn from_boids(boids: Vec<Boid>) -> (r: Flock)
        requires
            boids@.len() <= POP_MAX,
            forall|i: int|
                0 <= i < boids@.len() ==> (#[trigger] boids@[i]).wf() && boids@[i].id == i,
        ensures
            r.wf(),
            r.boids@ == boids@,
            r.flockid == 1,
    {
        Flock { flockid: 1, boids }
    }

    /// One simulation tick: snapshot the population, rebuild the
    /// grid from the snapshot, and steer and integrate every agent
    /// against the snapshot's neighbor sets. Afterwards every agent
    /// is exactly the stepped image of its old self: within the
    /// speed cap, inside the world, with an empty accumulator — and
    /// untouched when the time step is zero.
    pub fn update_with_delta(&mut self, dt: i64)
        requires
            old(self).wf(),
            0 <= dt <= DT_MAX,
        ensures
            final(self).wf(),
            final(self).flockid == old(self).flockid,
            final(self).boids@.len() == old(self).boids@.len(),
            forall|i: int|
                0 <= i < old(self).boids@.len() ==> stepped(
                    old(self).boids@[i],
                    neighbors_sp(old(self).boids@, i),
                    #[trigger] final(self).boids@[i],
                    dt as int,
                ),
    {
        let ghost bs0 = self.boids@;
        let n = self.boids.len();
        let mut snap: Vec<Boid> = Vec::new();
        for j in 0..n
            invariant
                n == bs0.len(),
                self.boids@ == bs0,
                snap@ == bs0.take(j as int),
        {
            snap.push(self.boids[j]);
            proof {
                assert(bs0.take(j as int + 1) =~= bs0.take(j as int).push(bs0[j as int]));
            }
        }
        proof {
            assert(snap@ =~= bs0);
        }
        let mut ps: Vec<Vec2i> = Vec::new();
        for j in 0..n
            invariant
                n == bs0.len(),
                self.boids@ == bs0,
                snap@ == bs0,
                ps@ == positions_of(bs0).take(j as int),
        {
            ps.push(snap[j].position);
            proof {
                assert(positions_of(bs0).take(j as int + 1) =~= positions_of(bs0).take(
                    j as int,
                ).push(bs0[j as int].position));
            }
        }
        proof {
            assert(ps@ =~= positions_of(bs0));
            assert(forall|i: int| 0 <= i < ps@.len() ==> in_world(#[trigger] ps@[i])) by {
                assert(forall|i: int|
                    0 <= i < bs0.len() ==> (#[trigger] bs0[i]).wf() && in_world(bs0[i].position));
            }
        }
        let grid = Grid::build(&ps);
        for i in 0..n
            invariant
                n == bs0.len() <= POP_MAX,
                snap@ == bs0,
                ps@ == positions_of(bs0),
                forall|j: int| 0 <= j < n ==> (#[trigger] bs0[j]).wf() && bs0[j].id == j,
                grid.wf(ps@),
                0 <= dt <= DT_MAX,
                self.boids@.len() == n,
                self.flockid == old(self).flockid,
                forall|j: int| i <= j < n ==> #[trigger] self.boids@[j] == bs0[j],
                forall|j: int|
                    0 <= j < i ==> stepped(
                        bs0[j],
                        neighbors_sp(bs0, j),
                        #[trigger] self.boids@[j],
                        dt as int,
                    ),
                forall|j: int| 0 <= j < i ==> (#[trigger] self.boids@[j]).wf(),
        {
            let p = ps[i];
            let cand = grid.query(p);
            proof {
                assert(views(grid.cells@) == cells_of(ps@));
                assert(cand@ == query_sp(positions_of(bs0), bs0[i as int].position));
                lemma_query_sp_props(ps@, ps@[i as int]);
                lemma_query_sp_len(ps@, ps@[i as int]);
            }
            let m = cand.len();
            let mut nbrs: Vec<Boid> = Vec::new();
            for k in 0..m
                invariant
                    n == bs0.len(),
                    snap@ == bs0,
                    m == cand@.len(),
                    forall|t: int| 0 <= t < cand@.len() ==> (#[trigger] cand@[t]) < n,
                    nbrs@ == cand@.take(k as int).map_values(|j: usize| bs0[j as int]),
            {
                let j = cand[k];
                nbrs.push(snap[j]);
                proof {
                    assert(cand@.take(k as int + 1) =~= cand@.take(k as int).push(cand@[k as int]));
                    assert(cand@.take(k as int + 1).map_values(|j: usize| bs0[j as int]) =~= cand@
                        .take(k as int).map_values(|j: usize| bs0[j as int]).push(
                        bs0[cand@[k as int] as int],
                    ));
                }
            }
            proof {
                assert(cand@.take(m as int) =~= cand@);
            }
            if nbrs.len() == 0 {
                let own = self.boids[i];
                nbrs.push(own);
                proof {
                    assert(nbrs@ =~= seq![bs0[i as int]]);
                }
            }
            proof {
                assert(nbrs@ == neighbors_sp(bs0, i as int));
                assert(forall|t: int|
                    0 <= t < nbrs@.len() ==> (#[trigger] nbrs@[t]).sound()) by {
                    let q = query_sp(positions_of(bs0), bs0[i as int].position);
                    if q.len() == 0 {
                        assert(nbrs@[0] == bs0[i as int]);
                    } else {
                        assert(forall|t: int|
                            0 <= t < nbrs@.len() ==> #[trigger] nbrs@[t] == bs0[q[t] as int]);
                    }
                }
            }
            proof {
                assert(nbrs@.len() <= 9 * (n as int));
            }
            let mut b = self.boids[i];
            b.run_with_delta(&nbrs, dt);
            self.boids[i] = b;
            proof {
                assert(b.wf());
            }
        }
        proof {
            assert(final(self).wf()) by {
                assert(forall|i: int|
                    0 <= i < n ==> stepped(
                        bs0[i],
                        neighbors_sp(bs0, i),
                        #[trigger] self.boids@[i],
                        dt as int,
                    ));
            }
        }
    }

    /// Read back every position as a flat list
    /// `[x0, y0, x1, y1, ...]` in stable agent order. The result is
    /// a function of the flock alone: reading twice without a tick
    /// in between yields identical output.
    pub fn get_positions(&self) -> (r: Vec<i64>)
        ensures
            r@.len() == 2 * self.boids@.len(),
            forall|i: int|
                0 <= i < self.boids@.len() ==> r@[2 * i] == (#[trigger] self.boids@[i]).position.x
                    && r@[2 * i + 1] == self.boids@[i].position.y,
    {
        let mut out: Vec<i64> = Vec::new();
        let n = self.boids.len();
        for i in 0..n
            invariant
                n == self.boids@.len(),
                out@.len() == 2 * i,
                forall|j: int|
                    0 <= j < i ==> out@[2 * j] == (#[trigger] self.boids@[j]).position.x
                        && out@[2 * j + 1] == self.boids@[j].position.y,
        {
            out.push(self.boids[i].position.x);
            out.push(self.boids[i].position.y);
        }
        out
    }
}

} // verus!
