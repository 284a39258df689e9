use vstd::prelude::*;
use crate::math::{Vec3i, SCALE};
use crate::particle::{
    ConfigError, BOX_LIMIT, CELL_LIMIT, DT_LIMIT, GRAVITY_LIMIT, SUBSTEP_LIMIT,
};

verus! {

/// The constants surface of the simulation: gravity, box extent, grid cell
/// edge, tick duration and sub-step count, and the two damping factors.
///
/// A value of this type only exists validated: `SimConfig::new` rejects
/// every degenerate combination, so holders may rely on `wf`.
#[derive(Clone, Copy, Debug, PartialEq, Eq, Structural)]
pub struct SimConfig {
    /// Constant acceleration, in sub-units per second squared.
    pub gravity: Vec3i,
    /// Host tick duration, in sub-units of a second.
    pub tick_dt: i64,
    /// Sub-steps per host tick.
    pub substeps: u64,
    /// Box extent: each axis spans `[0, box_size]`.
    pub box_size: i64,
    /// Edge of one spatial hash grid cell.
    pub cell_size: i64,
    /// Boundary rebound damping, as a fraction of `SCALE`.
    pub boundary_damping: i64,
    /// Collision correction damping, as a fraction of `SCALE`.
    pub collision_damping: i64,
}

impl SimConfig {
    /// Every field is in the range the verified arithmetic supports.
    pub open spec fn wf(self) -> bool {
        &&& self.gravity@.within(GRAVITY_LIMIT as int)
        &&& 0 < self.tick_dt <= DT_LIMIT
        &&& 1 <= self.substeps <= SUBSTEP_LIMIT
        &&& self.substeps <= self.tick_dt
        &&& 0 < self.box_size <= BOX_LIMIT
        &&& 0 < self.cell_size <= CELL_LIMIT
        &&& 0 <= self.boundary_damping <= SCALE
        &&& 0 <= self.collision_damping <= SCALE
    }

    /// The duration of one sub-step: the tick split evenly, rounded down.
    pub open spec fn sub_dt(self) -> int {
        self.tick_dt as int / self.substeps as int
    }
}

/// The outcome `SimConfig::new` owes for each input: the first degenerate
/// value, checked in field order, names the error.
pub open spec fn spec_new_config(
    gravity: Vec3i,
    tick_dt: i64,
    substeps: u64,
    box_size: i64,
    cell_size: i64,
    boundary_damping: i64,
    collision_damping: i64,
) -> Result<SimConfig, ConfigError> {
    if !gravity@.within(GRAVITY_LIMIT as int) {
        Err(ConfigError::Gravity)
    } else if !(0 < tick_dt <= DT_LIMIT) {
        Err(ConfigError::TimeStep)
    } else if !(1 <= substeps <= SUBSTEP_LIMIT && substeps <= tick_dt) {
        Err(ConfigError::Substeps)
    } else if !(0 < box_size <= BOX_LIMIT) {
        Err(ConfigError::BoxSize)
    } else if !(0 < cell_size <= CELL_LIMIT) {
        Err(ConfigError::CellSize)
    } else if !(0 <= boundary_damping <= SCALE && 0 <= collision_damping <= SCALE) {
        Err(ConfigError::Damping)
    } else {
        Ok(SimConfig {
            gravity,
            tick_dt,
            substeps,
            box_size,
            cell_size,
            boundary_damping,
            collision_damping,
        })
    }
}

impl SimConfig {
    /// Validates the whole constants surface; a degenerate value (a cell
    /// edge or tick that is not positive, a damping outside `[0, 1]`) is
    /// rejected here rather than left to corrupt the physics.
    pub fn new(
        gravity: Vec3i,
        tick_dt: i64,
        substeps: u64,
        box_size: i64,
        cell_size: i64,
        boundary_damping: i64,
        collision_damping: i64,
    ) -> (r: Result<SimConfig, ConfigError>)
        ensures
            r == spec_new_config(
                gravity,
                tick_dt,
                substeps,
                box_size,
                cell_size,
                boundary_damping,
                collision_damping,
            ),
            r is Ok ==> r->Ok_0.wf(),
    {
        if !(-GRAVITY_LIMIT <= gravity.x && gravity.x <= GRAVITY_LIMIT
            && -GRAVITY_LIMIT <= gravity.y && gravity.y <= GRAVITY_LIMIT
            && -GRAVITY_LIMIT <= gravity.z && gravity.z <= GRAVITY_LIMIT) {
            Err(ConfigError::Gravity)
        } else if !(0 < tick_dt && tick_dt <= DT_LIMIT) {
            Err(ConfigError::TimeStep)
        } else if !(1 <= substeps && substeps <= SUBSTEP_LIMIT && substeps <= tick_dt as u64) {
            Err(ConfigError::Substeps)
        } else if !(0 < box_size && box_size <= BOX_LIMIT) {
            Err(ConfigError::BoxSize)
        } else if !(0 < cell_size && cell_size <= CELL_LIMIT) {
            Err(ConfigError::CellSize)
        } else if !(0 <= boundary_damping && boundary_damping <= SCALE && 0 <= collision_damping
            && collision_damping <= SCALE) {
            Err(ConfigError::Damping)
        } else {
            Ok(SimConfig {
                gravity,
                tick_dt,
                substeps,
                box_size,
                cell_size,
                boundary_damping,
                collision_damping,
            })
        }
    }
}

} // verus!
