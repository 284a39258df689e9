use vstd::prelude::*;
use crate::math::{V3, Vec3i};

verus! {

/// The largest collision radius the fixed-point arithmetic supports.
pub const RADIUS_LIMIT: i64 = 500_000_000;

/// The largest box extent the fixed-point arithmetic supports.
pub const BOX_LIMIT: i64 = 1_000_000_000;

/// The largest grid cell edge the fixed-point arithmetic supports.
pub const CELL_LIMIT: i64 = 1_000_000_000;

/// The largest gravity component magnitude, in sub-units per second squared.
pub const GRAVITY_LIMIT: i64 = 1_000_000_000;

/// The longest host tick, in sub-units of a second (one second).
pub const DT_LIMIT: i64 = 1_000_000;

/// The most sub-steps a single tick may be divided into.
pub const SUBSTEP_LIMIT: u64 = 64;

/// The most particles one simulation step accepts; keeps the total
/// collision displacement of a sub-step within `DISP_LIMIT`.
pub const MAX_PARTICLES: usize = 1024;

/// A single positional correction never moves a particle by more than
/// half the largest possible pair overlap.
pub const CORR_LIMIT: i64 = RADIUS_LIMIT;

/// The collision pass records at most `MAX_PARTICLES^2` corrections, each
/// bounded by `CORR_LIMIT`, so no particle drifts farther than this in one
/// sub-step.
pub const DISP_LIMIT: i64 = 1024 * 1024 * CORR_LIMIT;

/// Every position a sub-step can produce stays within this magnitude.
pub const POS_LIMIT: i64 = BOX_LIMIT + DISP_LIMIT;

/// The boundary pass leaves every previous position within this magnitude.
pub const BOUND_OLD_LIMIT: i64 = 5 * BOX_LIMIT + DISP_LIMIT;

/// Every previous position a sub-step can produce stays within this magnitude.
pub const OLD_LIMIT: i64 = 5 * BOX_LIMIT + 2 * DISP_LIMIT;

/// Integration can push a coordinate at most this far before the boundary
/// pass pulls it back.
pub const INTEG_LIMIT: i64 = 2 * POS_LIMIT + OLD_LIMIT + GRAVITY_LIMIT;

/// A configuration value the simulation rejects outright rather than
/// letting it produce silently wrong physics.
#[derive(Clone, Copy, Debug, PartialEq, Eq, Structural)]
pub enum ConfigError {
    /// A radius that is not positive or does not fit the arithmetic.
    Radius,
    /// A spawn position outside the supported coordinate range.
    Position,
    /// A box extent that is not positive or does not fit the arithmetic.
    BoxSize,
    /// A cell edge that is not positive or does not fit the arithmetic.
    CellSize,
    /// A tick duration that is not positive or does not fit the arithmetic.
    TimeStep,
    /// A sub-step count of zero, more than `SUBSTEP_LIMIT`, or more than
    /// the tick has sub-units.
    Substeps,
    /// A damping factor outside `[0, SCALE]`.
    Damping,
    /// A gravity component beyond `GRAVITY_LIMIT`.
    Gravity,
}

/// Mathematical state of one particle.
pub ghost struct PState {
    pub pos: V3,
    pub old_pos: V3,
    pub acceleration: V3,
    pub radius: int,
}

impl PState {
    /// The state a sub-step expects on entry and re-establishes on exit.
    pub open spec fn wf(self) -> bool {
        &&& 0 < self.radius <= RADIUS_LIMIT
        &&& self.pos.within(POS_LIMIT as int)
        &&& self.old_pos.within(OLD_LIMIT as int)
        &&& self.acceleration.within(GRAVITY_LIMIT as int)
    }

    /// Every position coordinate sits in the closed range the boundary
    /// pass produces, whatever the box and radius.
    pub open spec fn boxed(self) -> bool {
        &&& -RADIUS_LIMIT <= self.pos.x <= BOX_LIMIT
        &&& -RADIUS_LIMIT <= self.pos.y <= BOX_LIMIT
        &&& -RADIUS_LIMIT <= self.pos.z <= BOX_LIMIT
    }

    /// The particle's surface lies inside `[0, box_size]` on every axis.
    pub open spec fn in_box(self, box_size: int) -> bool {
        &&& self.radius <= self.pos.x <= box_size - self.radius
        &&& self.radius <= self.pos.y <= box_size - self.radius
        &&& self.radius <= self.pos.z <= box_size - self.radius
    }
}

/// Physics state of one simulated body. `position - previous_position` is
/// the implied velocity; no velocity is stored directly.
#[derive(Clone, Copy, Debug, PartialEq, Eq, Structural)]
pub struct Particle {
    /// Current location, authoritative.
    pub pos: Vec3i,
    /// Location one sub-step ago.
    pub old_pos: Vec3i,
    /// Transient per-sub-step force accumulator; only gravity contributes.
    pub acceleration: Vec3i,
    /// Collision radius, constant for the particle's lifetime.
    pub radius: i64,
}

impl View for Particle {
    type V = PState;

    open spec fn view(&self) -> PState {
        PState {
            pos: self.pos@,
            old_pos: self.old_pos@,
            acceleration: self.acceleration@,
            radius: self.radius as int,
        }
    }
}

/// The outcome `Particle::new` owes for each input.
pub open spec fn spec_new_particle(pos: Vec3i, radius: i64) -> Result<Particle, ConfigError> {
    if !(0 < radius <= RADIUS_LIMIT) {
        Err(ConfigError::Radius)
    } else if !pos@.within(POS_LIMIT as int) {
        Err(ConfigError::Position)
    } else {
        Ok(Particle { pos, old_pos: pos, acceleration: Vec3i { x: 0, y: 0, z: 0 }, radius })
    }
}

impl Particle {
    /// A newly spawned particle: zero implied velocity, zero acceleration.
    ///
    /// Rejects a radius that is not positive, and values the fixed-point
    /// arithmetic cannot carry.
    pub fn new(pos: Vec3i, radius: i64) -> (r: Result<Particle, ConfigError>)
        ensures
            r == spec_new_particle(pos, radius),
            r is Ok ==> r->Ok_0@.wf(),
    {
        if !(0 < radius && radius <= RADIUS_LIMIT) {
            Err(ConfigError::Radius)
        } else if !(-POS_LIMIT <= pos.x && pos.x <= POS_LIMIT && -POS_LIMIT <= pos.y
            && pos.y <= POS_LIMIT && -POS_LIMIT <= pos.z && pos.z <= POS_LIMIT) {
            Err(ConfigError::Position)
        } else {
            Ok(Particle { pos, old_pos: pos, acceleration: Vec3i::zero(), radius })
        }
    }
}

} // verus!
