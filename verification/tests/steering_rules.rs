//! The four steering rules on hand-built scenarios.

use boids::boid::Boid;
use boids::vec2::Vec2i;

fn at(id: usize, x: i64, y: i64, vx: i64, vy: i64) -> Boid {
    Boid::with_state(id, x, y, vx, vy)
}

#[test]
fn alone_all_rules_return_zero() {
    // a candidate set holding only the agent itself pushes nowhere
    let b = at(0, 600_000, 400_000, 1000, 0);
    let ns = vec![b];
    let s = b.separate(&ns);
    let a = b.align(&ns);
    let c = b.cohere(&ns);
    let u = b.view_unblocking(&ns);
    assert_eq!((s.x, s.y), (0, 0));
    assert_eq!((a.x, a.y), (0, 0));
    assert_eq!((c.x, c.y), (0, 0));
    assert_eq!((u.x, u.y), (0, 0));
}

#[test]
fn separation_pushes_apart_within_radius() {
    // five units apart, inside the nineteen-unit separation radius
    let b0 = at(0, 600_000, 400_000, 0, 0);
    let b1 = at(1, 605_000, 400_000, 0, 0);
    let ns = vec![b0, b1];
    let f0 = b0.separate(&ns);
    let f1 = b1.separate(&ns);
    // nonzero, directed away from the other, and capped at max force
    assert_eq!((f0.x, f0.y), (-900, 0));
    assert_eq!((f1.x, f1.y), (900, 0));
    assert!(f0.x * f0.x + f0.y * f0.y <= 900 * 900 + 2 * 900);
}

#[test]
fn separation_ignores_far_neighbors() {
    // twenty-five units apart: outside the radius, no push
    let b0 = at(0, 600_000, 400_000, 0, 0);
    let b1 = at(1, 625_000, 400_000, 0, 0);
    let f0 = b0.separate(&vec![b0, b1]);
    assert_eq!((f0.x, f0.y), (0, 0));
}

#[test]
fn alignment_matches_neighbor_heading() {
    let b0 = at(0, 600_000, 400_000, 6000, 0);
    let b1 = at(1, 620_000, 400_000, 0, 6000);
    let f = b0.align(&vec![b0, b1]);
    // steer from (6000,0) toward (0,6000), clamped to max force
    assert_eq!((f.x, f.y), (-636, 636));
}

#[test]
fn alignment_ignores_agents_behind() {
    // the view cone gates alignment: an agent straight behind is unseen
    let b0 = at(0, 600_000, 400_000, 6000, 0);
    let b1 = at(1, 580_000, 400_000, 0, 6000);
    let f = b0.align(&vec![b0, b1]);
    assert_eq!((f.x, f.y), (0, 0));
}

#[test]
fn cohesion_seeks_neighbor_center() {
    let b0 = at(0, 600_000, 400_000, 0, 0);
    let b1 = at(1, 620_000, 400_000, 0, 0);
    let f = b0.cohere(&vec![b0, b1]);
    assert_eq!((f.x, f.y), (900, 0));
}

#[test]
fn seek_of_coincident_target_is_zero() {
    let b = at(0, 600_000, 400_000, 3000, 0);
    let f = b.seek(Vec2i::new(600_000, 400_000));
    assert_eq!((f.x, f.y), (0, 0));
}

#[test]
fn unblocking_force_is_lateral() {
    // another agent dead ahead inside cone and detection distance
    let b0 = at(0, 600_000, 400_000, 6000, 0);
    let b1 = at(1, 610_000, 400_000, 0, 0);
    let f = b0.view_unblocking(&vec![b0, b1]);
    // nonzero and exactly perpendicular to the heading
    assert_eq!((f.x, f.y), (0, -180));
    assert_eq!(f.x * b0.velocity.x + f.y * b0.velocity.y, 0);
}

#[test]
fn unblocking_below_severity_threshold_is_zero() {
    // thirty units ahead: severity 0.25, below the 0.3 threshold
    let b0 = at(0, 600_000, 400_000, 6000, 0);
    let b1 = at(1, 630_000, 400_000, 0, 0);
    let f = b0.view_unblocking(&vec![b0, b1]);
    assert_eq!((f.x, f.y), (0, 0));
}

#[test]
fn unblocking_with_zero_velocity_is_zero() {
    // no heading, no lateral direction to push along
    let b0 = at(0, 600_000, 400_000, 0, 0);
    let b1 = at(1, 601_000, 400_000, 0, 0);
    let f = b0.view_unblocking(&vec![b0, b1]);
    assert_eq!((f.x, f.y), (0, 0));
}
