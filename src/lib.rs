//! A fixed-point 2D particle physics sandbox: Verlet integration, a uniform
//! bucket grid for the broad phase, and positional collision resolution.
//!
//! All quantities are integers. Positions are in a length unit chosen by the
//! caller (a fraction of a pixel, say), and a time step is a whole number of
//! time units.
pub mod vec2;
pub mod circle;
pub mod grid;
pub mod physics_object;
pub mod hooks;
pub mod laws;

pub use circle::Circle;
pub use grid::{bucket_of, neighbor_buckets};
pub use hooks::BoundedGravity;
pub use physics_object::PhysicsWorld;
pub use vec2::Vec2;
