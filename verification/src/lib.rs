//! A fixed-timestep particle simulation core: Verlet position integration,
//! axis-aligned box boundary constraints, and pairwise collision resolution
//! accelerated by a uniform spatial hash grid.
//!
//! All state lives in plain `i64` sub-unit coordinates (`SCALE` sub-units to
//! the unit), so every step of the simulation is deterministic and carries a
//! proved contract.

pub mod boundary;
pub mod collide;
pub mod config;
pub mod grid;
pub mod integrate;
pub mod laws;
pub mod math;
pub mod particle;
pub mod sim;

pub use boundary::check_box_collision;
pub use collide::apply_corrections;
pub use collide::detect_collisions;
pub use collide::resolve_collisions;
pub use collide::Collision;
pub use config::SimConfig;
pub use grid::build_spatial_grid;
pub use grid::Cell;
pub use grid::Grid;
pub use integrate::verlet_integration;
pub use math::SCALE;
pub use math::V3;
pub use math::Vec3i;
pub use particle::ConfigError;
pub use particle::Particle;
pub use sim::physics_substeps;
