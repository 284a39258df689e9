use vstd::prelude::*;
use vstd::arithmetic::div_mod::{lemma_div_is_ordered, lemma_div_nonincreasing, lemma_div_by_self};
use crate::boundary::{check_box_collision, spec_bound};
use crate::collide::{apply_upto, pviews, resolve_collisions, spec_detect};
use crate::config::SimConfig;
use crate::grid::{build_spatial_grid, Grid};
use crate::integrate::{lemma_integrate_bounds, spec_integrate, verlet_integration};
use crate::math::div_trunc;
use crate::particle::{Particle, PState, MAX_PARTICLES, RADIUS_LIMIT};

verus! {

/// Integration followed by the boundary pass, mapped over the collection.
pub open spec fn mid_states(pre: Seq<PState>, cfg: SimConfig) -> Seq<PState> {
    Seq::new(
        pre.len(),
        |i: int|
            spec_bound(
                spec_integrate(pre[i], cfg.gravity@, cfg.sub_dt()),
                cfg.box_size as int,
                cfg.boundary_damping as int,
            ),
    )
}

/// One sub-step, as a function of the states alone: integrate, clamp to
/// the box, rebuild the grid, then detect and apply pairwise corrections.
/// The grid is rebuilt from the clamped positions, so the narrow phase
/// sees boundary-legal state; overlaps created by the corrections
/// themselves wait for the next sub-step's rebuild.
pub open spec fn substep_fn(pre: Seq<PState>, cfg: SimConfig) -> Seq<PState> {
    let mid = mid_states(pre, cfg);
    let cs = spec_detect(mid, cfg.cell_size as int, mid.len() as int);
    apply_upto(mid, cs, cs.len() as int, cfg.collision_damping as int)
}

/// `k` sub-steps in sequence.
pub open spec fn substeps_fn(pre: Seq<PState>, cfg: SimConfig, k: int) -> Seq<PState>
    decreases k,
{
    if k <= 0 {
        pre
    } else {
        substep_fn(substeps_fn(pre, cfg, k - 1), cfg)
    }
}

/// Everything the orchestrator asks of each particle on entry and gives
/// back on exit.
pub open spec fn sim_ready(ps: Seq<Particle>, cfg: SimConfig) -> bool {
    forall|i: int|
        0 <= i < ps.len() ==> {
            let p = (#[trigger] ps[i])@;
            &&& p.wf()
            &&& 2 * p.radius <= cfg.box_size
        }
}

/// The fixed-step orchestrator: one host tick, run as `cfg.substeps`
/// sub-steps of duration `tick_dt / substeps` each, strictly in sequence.
/// Each sub-step integrates, clamps, rebuilds the grid, then resolves
/// pairwise collisions, in that fixed order; the whole tick computes
/// exactly `substeps_fn`.
pub fn physics_substeps(grid: &mut Grid, particles: &mut Vec<Particle>, cfg: &SimConfig)
    requires
        cfg.wf(),
        old(grid).wf(),
        old(grid).cell_size == cfg.cell_size,
        old(particles)@.len() <= MAX_PARTICLES,
        sim_ready(old(particles)@, *cfg),
    ensures
        final(particles)@.len() == old(particles)@.len(),
        final(grid).wf(),
        final(grid).cell_size == cfg.cell_size,
        pviews(final(particles)@) == substeps_fn(
            pviews(old(particles)@),
            *cfg,
            cfg.substeps as int,
        ),
        sim_ready(final(particles)@, *cfg),
        forall|i: int|
            0 <= i < old(particles)@.len() ==> (#[trigger] final(particles)@[i])@.radius
                == old(particles)@[i]@.radius,
{
    proof {
        lemma_div_is_ordered(cfg.substeps as int, cfg.tick_dt as int, cfg.substeps as int);
        lemma_div_by_self(cfg.substeps as int);
        lemma_div_nonincreasing(cfg.tick_dt as int, cfg.substeps as int);
    }
    let sub_dt = div_trunc(cfg.tick_dt, cfg.substeps as i64);
    let n = particles.len();
    let mut s: u64 = 0;
    while s < cfg.substeps
        invariant
            s <= cfg.substeps,
            cfg.wf(),
            sub_dt == cfg.sub_dt(),
            0 < sub_dt <= cfg.tick_dt,
            n == particles@.len(),
            n == old(particles)@.len(),
            n <= MAX_PARTICLES,
            grid.wf(),
            grid.cell_size == cfg.cell_size,
            sim_ready(particles@, *cfg),
            pviews(particles@) == substeps_fn(pviews(old(particles)@), *cfg, s as int),
            forall|i: int|
                0 <= i < n ==> (#[trigger] particles@[i])@.radius == old(particles)@[i]@.radius,
        decreases cfg.substeps - s,
    {
        let ghost entry = pviews(particles@);
        verlet_integration(sub_dt, cfg.gravity, particles);
        proof {
            assert forall|i: int| 0 <= i < n implies {
                let p = (#[trigger] particles@[i])@;
                &&& p.pos.within(crate::particle::INTEG_LIMIT as int)
                &&& p.old_pos.within(crate::particle::POS_LIMIT as int)
                &&& 0 < p.radius <= RADIUS_LIMIT
            } by {
                lemma_integrate_bounds(entry[i], cfg.gravity@, sub_dt as int);
            }
        }
        check_box_collision(particles, cfg.box_size, cfg.boundary_damping);
        proof {
            assert(pviews(particles@) =~= mid_states(entry, *cfg));
        }
        build_spatial_grid(grid, particles);
        resolve_collisions(grid, particles, cfg.collision_damping);
        proof {
            assert(pviews(particles@) == substep_fn(entry, *cfg));
            assert(pviews(particles@) == substeps_fn(pviews(old(particles)@), *cfg, s as int + 1));
        }
        s = s + 1;
    }
}

} // verus!
