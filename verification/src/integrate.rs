use vstd::prelude::*;
use vstd::math::abs;
use crate::math::{div_trunc, fx_mul, lemma_tdiv_le, lemma_damp_le, V3, Vec3i, SCALE};
use crate::particle::{
    Particle, PState, DT_LIMIT, GRAVITY_LIMIT, INTEG_LIMIT, POS_LIMIT,
};

verus! {

/// The displacement gravity contributes to one sub-step: `g * dt^2`,
/// componentwise in fixed point.
pub open spec fn spec_gravity_step(gravity: V3, dt: int) -> V3 {
    let dt2 = fx_mul(dt, dt);
    V3 {
        x: fx_mul(gravity.x, dt2),
        y: fx_mul(gravity.y, dt2),
        z: fx_mul(gravity.z, dt2),
    }
}

/// One Verlet step for one particle: the acceleration is reset to gravity,
/// the implied velocity `pos - old_pos` carries the particle forward, and
/// gravity adds `g * dt^2` (velocity-less Störmer form).
pub open spec fn spec_integrate(p: PState, gravity: V3, dt: int) -> PState {
    PState {
        pos: p.pos.plus(p.pos.minus(p.old_pos)).plus(spec_gravity_step(gravity, dt)),
        old_pos: p.pos,
        acceleration: gravity,
        radius: p.radius,
    }
}

/// The gravity step of a well-formed configuration is itself bounded by
/// `GRAVITY_LIMIT` on every component.
pub proof fn lemma_gravity_step_bounds(gravity: V3, dt: int)
    requires
        gravity.within(GRAVITY_LIMIT as int),
        0 < dt <= DT_LIMIT,
    ensures
        spec_gravity_step(gravity, dt).within(GRAVITY_LIMIT as int),
        0 <= fx_mul(dt, dt) <= SCALE,
{
    let s = SCALE as int;
    assert(0 <= dt * dt <= s * s) by (nonlinear_arith)
        requires 0 < dt <= s;
    lemma_tdiv_le(dt * dt, s, s);
    lemma_damp_le(gravity.x, fx_mul(dt, dt));
    lemma_damp_le(gravity.y, fx_mul(dt, dt));
    lemma_damp_le(gravity.z, fx_mul(dt, dt));
}

/// Integration keeps every coordinate within the ranges the next pass
/// expects: the new position within `INTEG_LIMIT`, the recorded previous
/// position within `POS_LIMIT`.
pub proof fn lemma_integrate_bounds(p: PState, gravity: V3, dt: int)
    requires
        p.wf(),
        gravity.within(GRAVITY_LIMIT as int),
        0 < dt <= DT_LIMIT,
    ensures
        spec_integrate(p, gravity, dt).pos.within(INTEG_LIMIT as int),
        spec_integrate(p, gravity, dt).old_pos.within(POS_LIMIT as int),
        spec_integrate(p, gravity, dt).acceleration.within(GRAVITY_LIMIT as int),
        spec_integrate(p, gravity, dt).radius == p.radius,
{
    lemma_gravity_step_bounds(gravity, dt);
}

/// Computes `a * f / SCALE` for a bounded `a` and a fraction `f` of `SCALE`.
fn fx_mul_frac(a: i64, f: i64) -> (r: i64)
    requires
        -GRAVITY_LIMIT <= a <= GRAVITY_LIMIT,
        0 <= f <= SCALE,
    ensures
        r == fx_mul(a as int, f as int),
        -abs(a as int) <= r <= abs(a as int),
{
    proof {
        assert(-1_000_000_000_000_000 <= (a as int) * (f as int) <= 1_000_000_000_000_000)
            by (nonlinear_arith)
            requires -GRAVITY_LIMIT <= a as int <= GRAVITY_LIMIT, 0 <= f as int <= SCALE;
        lemma_damp_le(a as int, f as int);
    }
    div_trunc(a * f, SCALE)
}

/// The gravity step as a machine value.
pub fn gravity_step(gravity: Vec3i, dt: i64) -> (r: Vec3i)
    requires
        gravity@.within(GRAVITY_LIMIT as int),
        0 < dt <= DT_LIMIT,
    ensures
        r@ == spec_gravity_step(gravity@, dt as int),
        r@.within(GRAVITY_LIMIT as int),
{
    proof {
        let s = SCALE as int;
        assert(0 <= (dt as int) * (dt as int) <= s * s) by (nonlinear_arith)
            requires 0 < dt as int <= s;
        lemma_tdiv_le((dt as int) * (dt as int), s, s);
    }
    let dt2 = div_trunc(dt * dt, SCALE);
    Vec3i::new(
        fx_mul_frac(gravity.x, dt2),
        fx_mul_frac(gravity.y, dt2),
        fx_mul_frac(gravity.z, dt2),
    )
}

/// The Verlet integration pass: every particle's acceleration is set to
/// gravity and its position advanced one sub-step; each particle is
/// independent of all the others.
pub fn verlet_integration(dt: i64, gravity: Vec3i, particles: &mut Vec<Particle>)
    requires
        0 < dt <= DT_LIMIT,
        gravity@.within(GRAVITY_LIMIT as int),
        forall|i: int|
            0 <= i < old(particles)@.len() ==> (#[trigger] old(particles)@[i])@.wf(),
    ensures
        final(particles)@.len() == old(particles)@.len(),
        forall|i: int|
            0 <= i < old(particles)@.len() ==> (#[trigger] final(particles)@[i])@
                == spec_integrate(old(particles)@[i]@, gravity@, dt as int),
{
    let gs = gravity_step(gravity, dt);
    let n = particles.len();
    let mut i: usize = 0;
    while i < n
        invariant
            i <= n,
            n == particles@.len(),
            n == old(particles)@.len(),
            0 < dt <= DT_LIMIT,
            gravity@.within(GRAVITY_LIMIT as int),
            gs@ == spec_gravity_step(gravity@, dt as int),
            gs@.within(GRAVITY_LIMIT as int),
            forall|j: int| i <= j < n ==> #[trigger] particles@[j] == old(particles)@[j],
            forall|j: int| 0 <= j < n ==> (#[trigger] old(particles)@[j])@.wf(),
            forall|j: int|
                0 <= j < i ==> (#[trigger] particles@[j])@
                    == spec_integrate(old(particles)@[j]@, gravity@, dt as int),
        decreases n - i,
    {
        let p = particles[i];
        let nx = p.pos.x + (p.pos.x - p.old_pos.x) + gs.x;
        let ny = p.pos.y + (p.pos.y - p.old_pos.y) + gs.y;
        let nz = p.pos.z + (p.pos.z - p.old_pos.z) + gs.z;
        particles[i] = Particle {
            pos: Vec3i::new(nx, ny, nz),
            old_pos: p.pos,
            acceleration: gravity,
            radius: p.radius,
        };
        i = i + 1;
    }
}

} // verus!
