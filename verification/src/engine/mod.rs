//! Everything needed to run the simulation.
pub mod scalar;
pub mod vec2d;
pub mod particle;
pub mod collider;
pub mod spawn;
pub mod simulation;
pub mod head_on;

pub use collider::box_collider::BoxCollider;
pub use collider::sweep_collider::SweepCollider;
pub use collider::{BasicCollisionProcessor, CollisionDetector, CollisionProcessor};
pub use particle::{Area, Color, Particle, ParticleTemplate};
pub use simulation::{ConfigError, Simulation};
pub use vec2d::Vec2d;
