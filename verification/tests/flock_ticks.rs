//! Whole-flock ticks: spawning, advancing, reading back.

use boids::boid::Boid;
use boids::flock::Flock;

#[test]
fn spawn_places_population_inside_world() {
    fastrand::seed(1);
    let f = Flock::new(1000);
    assert_eq!(f.boids.len(), 1000);
    for (i, b) in f.boids.iter().enumerate() {
        assert_eq!(b.id, i);
        assert!(0 <= b.position.x && b.position.x < 1_200_000);
        assert!(0 <= b.position.y && b.position.y < 800_000);
        assert!(-2000 <= b.velocity.x && b.velocity.x <= 2000);
        assert!(-2000 <= b.velocity.y && b.velocity.y <= 2000);
        assert_eq!((b.acceleration.x, b.acceleration.y), (0, 0));
        assert_eq!(b.max_speed, 6000);
        assert_eq!(b.max_force, 900);
    }
    // the spawns draw fresh random values, not a fixed point
    let first = (f.boids[0].position.x, f.boids[0].position.y);
    assert!(f.boids.iter().any(|b| (b.position.x, b.position.y) != first));
}

#[test]
fn read_positions_twice_is_identical() {
    fastrand::seed(2);
    let f = Flock::new(64);
    let p1 = f.get_positions();
    let p2 = f.get_positions();
    assert_eq!(p1.len(), 128);
    assert_eq!(p1, p2);
}

#[test]
fn read_positions_matches_agents() {
    fastrand::seed(3);
    let f = Flock::new(10);
    let p = f.get_positions();
    for i in 0..10 {
        assert_eq!(p[2 * i], f.boids[i].position.x);
        assert_eq!(p[2 * i + 1], f.boids[i].position.y);
    }
}

#[test]
fn zero_delta_changes_nothing() {
    fastrand::seed(4);
    let mut f = Flock::new(30);
    let before: Vec<(i64, i64, i64, i64)> =
        f.boids.iter().map(|b| (b.position.x, b.position.y, b.velocity.x, b.velocity.y)).collect();
    f.update_with_delta(0);
    let after: Vec<(i64, i64, i64, i64)> =
        f.boids.iter().map(|b| (b.position.x, b.position.y, b.velocity.x, b.velocity.y)).collect();
    assert_eq!(before, after);
}

#[test]
fn lone_boid_with_zero_velocity_stays_put() {
    let b = Boid::with_state(0, 600_000, 400_000, 0, 0);
    let mut f = Flock::from_boids(vec![b]);
    for dt in [1, 17, 500, 10_000] {
        f.update_with_delta(dt);
        assert_eq!((f.boids[0].position.x, f.boids[0].position.y), (600_000, 400_000));
        assert_eq!((f.boids[0].velocity.x, f.boids[0].velocity.y), (0, 0));
    }
}

#[test]
fn speed_capped_and_position_in_world_every_tick() {
    fastrand::seed(5);
    let mut f = Flock::new(120);
    for _ in 0..20 {
        f.update_with_delta(17);
        for b in f.boids.iter() {
            // floor norm of the velocity is at most the speed cap
            assert!(b.velocity.x * b.velocity.x + b.velocity.y * b.velocity.y
                <= 6000 * 6000 + 2 * 6000);
            assert!(0 <= b.position.x && b.position.x < 1_200_000);
            assert!(0 <= b.position.y && b.position.y < 800_000);
            assert_eq!((b.acceleration.x, b.acceleration.y), (0, 0));
        }
    }
}

#[test]
fn lone_mover_wraps_at_the_edge() {
    // no neighbors, full speed rightward, one time unit per tick
    let b = Boid::with_state(0, 1_199_000, 400_000, 6000, 0);
    let mut f = Flock::from_boids(vec![b]);
    f.update_with_delta(1000);
    // 6000 milli/unit * 60 steps = 360000 milli of travel
    assert_eq!((f.boids[0].position.x, f.boids[0].position.y), (359_000, 400_000));
    assert_eq!((f.boids[0].velocity.x, f.boids[0].velocity.y), (6000, 0));
}

#[test]
fn two_boids_in_separation_range_move_apart() {
    let b0 = Boid::with_state(0, 600_000, 400_000, 0, 0);
    let b1 = Boid::with_state(1, 605_000, 400_000, 0, 0);
    let mut f = Flock::from_boids(vec![b0, b1]);
    f.update_with_delta(17);
    let gap_before = 5_000;
    let gap_after = f.boids[1].position.x - f.boids[0].position.x;
    assert!(gap_after > gap_before);
    // velocities point away from each other
    assert!(f.boids[0].velocity.x < 0);
    assert!(f.boids[1].velocity.x > 0);
}

#[test]
fn seeded_spawn_is_reproducible() {
    fastrand::seed(99);
    let f1 = Flock::new(25);
    fastrand::seed(99);
    let f2 = Flock::new(25);
    assert_eq!(f1.get_positions(), f2.get_positions());
}
