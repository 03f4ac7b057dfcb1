//! A verified 2D flocking ("boids") engine in fixed-point arithmetic.
//!
//! Every coordinate, velocity and force is an integer number of
//! milli-units: one world unit is `1000`. The world is a bounded
//! rectangle with toroidal wraparound; agents steer by four local
//! rules (separation, alignment, cohesion, view-unblocking) and a
//! uniform grid bounds the cost of neighbor queries.

pub mod world;
pub mod vec2;
pub mod boid;
pub mod grid;
pub mod flock;
