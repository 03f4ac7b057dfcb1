//! The spatial grid: cell assignment and block queries.

use boids::grid::Grid;
use boids::vec2::Vec2i;

#[test]
fn build_buckets_by_cell() {
    let ps = vec![
        Vec2i::new(0, 0),          // col 0, row 0 -> cell 0
        Vec2i::new(45_000, 5_000), // col 1, row 0 -> cell 20
        Vec2i::new(5_000, 45_000), // col 0, row 1 -> cell 1
        Vec2i::new(39_999, 39_999),// col 0, row 0 -> cell 0
    ];
    let g = Grid::build(&ps);
    assert_eq!(g.cells.len(), 600);
    assert_eq!(g.cells[0], vec![0, 3]);
    assert_eq!(g.cells[20], vec![1]);
    assert_eq!(g.cells[1], vec![2]);
}

#[test]
fn query_returns_block_members_only() {
    let ps = vec![
        Vec2i::new(600_000, 400_000), // the querying agent's cell
        Vec2i::new(601_000, 401_000), // same cell
        Vec2i::new(560_000, 400_000), // one column left: in block
        Vec2i::new(100_000, 100_000), // far away: out of block
    ];
    let g = Grid::build(&ps);
    let r = g.query(Vec2i::new(600_000, 400_000));
    assert!(r.contains(&0));
    assert!(r.contains(&1));
    assert!(r.contains(&2));
    assert!(!r.contains(&3));
    assert_eq!(r.len(), 3);
}

#[test]
fn query_at_corner_clamps_the_block() {
    let ps = vec![Vec2i::new(1_000, 1_000)];
    let g = Grid::build(&ps);
    let r = g.query(Vec2i::new(1_000, 1_000));
    assert_eq!(r, vec![0]);
}

#[test]
fn query_size_tracks_local_density_not_population() {
    // one agent at the center of every cell: density one per cell
    let mut ps: Vec<Vec2i> = Vec::new();
    for c in 0..30i64 {
        for r in 0..20i64 {
            ps.push(Vec2i::new(c * 40_000 + 20_000, r * 40_000 + 20_000));
        }
    }
    let g = Grid::build(&ps);
    let r = g.query(Vec2i::new(600_000, 400_000));
    assert_eq!(r.len(), 9);

    // five hundred more agents crowded in a far corner: the same
    // interior query still sees only its own block
    for _ in 0..500 {
        ps.push(Vec2i::new(10_000, 10_000));
    }
    let g2 = Grid::build(&ps);
    let r2 = g2.query(Vec2i::new(600_000, 400_000));
    assert_eq!(r2.len(), 9);
    assert!(!r2.is_empty());
}
