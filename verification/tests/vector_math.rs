//! Exact expectations for the fixed-point vector primitives.

use boids::vec2::{isqrt, Vec2i};
use boids::boid::wrap_coord;

#[test]
fn isqrt_exact_values() {
    assert_eq!(isqrt(0), 0);
    assert_eq!(isqrt(1), 1);
    assert_eq!(isqrt(24), 4);
    assert_eq!(isqrt(25), 5);
    assert_eq!(isqrt(26), 5);
    assert_eq!(isqrt(1_000_000), 1000);
    assert_eq!(isqrt(4_000_000_000_000_000_000), 2_000_000_000);
}

#[test]
fn length_of_three_four_five() {
    assert_eq!(Vec2i::new(3000, 4000).length(), 5000);
    assert_eq!(Vec2i::new(-3000, 4000).length(), 5000);
    assert_eq!(Vec2i::new(0, 0).length(), 0);
}

#[test]
fn normalize_exact() {
    let u = Vec2i::new(3000, 4000).normalize_milli();
    assert_eq!((u.x, u.y), (600, 800));
    let z = Vec2i::new(0, 0).normalize_milli();
    assert_eq!((z.x, z.y), (0, 0));
    let n = Vec2i::new(-3000, 4000).normalize_milli();
    assert_eq!((n.x, n.y), (-600, 800));
}

#[test]
fn clamp_leaves_short_vectors_alone() {
    let v = Vec2i::new(300, 400);
    let r = v.clamp_len_max(1000);
    assert_eq!((r.x, r.y), (300, 400));
}

#[test]
fn clamp_rescales_long_vectors() {
    let v = Vec2i::new(3000, 4000);
    let r = v.clamp_len_max(1000);
    assert_eq!((r.x, r.y), (600, 800));
}

#[test]
fn clamp_norm_never_exceeds_limit() {
    fastrand::seed(7);
    for _ in 0..500 {
        let v = Vec2i::new(fastrand::i64(-1_000_000..1_000_001), fastrand::i64(-1_000_000..1_000_001));
        let r = v.clamp_len_max(900);
        // floor norm <= 900 means the square is below (901)^2
        assert!(r.x * r.x + r.y * r.y <= 900 * 900 + 2 * 900);
        assert!(r.x.abs() <= 900 && r.y.abs() <= 900);
    }
}

#[test]
fn angle_exact_landmarks() {
    let e = Vec2i::new(1000, 0);
    assert_eq!(boids::vec2::angle_milli(e, Vec2i::new(500, 0)), 0);
    assert_eq!(boids::vec2::angle_milli(e, Vec2i::new(0, 700)), 1571);
    assert_eq!(boids::vec2::angle_milli(e, Vec2i::new(0, -700)), 1571);
    assert_eq!(boids::vec2::angle_milli(e, Vec2i::new(-800, 0)), 3142);
    // forty-five degrees
    assert_eq!(boids::vec2::angle_milli(e, Vec2i::new(1000, 1000)), 785);
}

#[test]
fn angle_of_zero_vector_is_straight() {
    // a degenerate direction must fall outside every forward cone
    let z = Vec2i::new(0, 0);
    assert_eq!(boids::vec2::angle_milli(z, Vec2i::new(1000, 0)), 3142);
    assert_eq!(boids::vec2::angle_milli(Vec2i::new(1000, 0), z), 3142);
}

#[test]
fn wrap_coord_wraps_both_ways() {
    assert_eq!(wrap_coord(5, 1_200_000), 5);
    assert_eq!(wrap_coord(-5, 1_200_000), 1_199_995);
    assert_eq!(wrap_coord(1_200_000, 1_200_000), 0);
    assert_eq!(wrap_coord(1_200_007, 1_200_000), 7);
    assert_eq!(wrap_coord(0, 800_000), 0);
    assert_eq!(wrap_coord(-800_000, 800_000), 0);
}
