use vstd::prelude::*;
use vstd::math::abs;
use crate::math::{damp, damp_exec, lemma_damp_le, V3, Vec3i, SCALE};
use crate::particle::{
    Particle, PState, BOUND_OLD_LIMIT, BOX_LIMIT, INTEG_LIMIT, POS_LIMIT, RADIUS_LIMIT,
};

verus! {

/// One half-space constraint at the low face of an axis: if the surface
/// would cross `0`, the coordinate is clamped to the contact value and the
/// implied velocity on the axis is damped (same direction, smaller
/// magnitude), by rewriting the previous position.
pub open spec fn face_low(p: int, o: int, r: int, d: int) -> (int, int) {
    if p - r < 0 {
        (r, r + damp(r - o, d))
    } else {
        (p, o)
    }
}

/// The matching constraint at the high face `box_size`.
pub open spec fn face_high(p: int, o: int, r: int, b: int, d: int) -> (int, int) {
    if p + r > b {
        (b - r, (b - r) + damp((b - r) - o, d))
    } else {
        (p, o)
    }
}

/// An axis checked low face first, then high face, in sequence.
pub open spec fn axis_low_first(p: int, o: int, r: int, b: int, d: int) -> (int, int) {
    let lo = face_low(p, o, r, d);
    face_high(lo.0, lo.1, r, b, d)
}

/// An axis checked high face first, then low face, in sequence.
pub open spec fn axis_high_first(p: int, o: int, r: int, b: int, d: int) -> (int, int) {
    let hi = face_high(p, o, r, b, d);
    face_low(hi.0, hi.1, r, d)
}

/// The whole boundary pass on one particle. The six half-space checks run
/// in a fixed order: the y axis low face first, then the x and z axes high
/// face first; the axes never interact.
pub open spec fn spec_bound(p: PState, b: int, d: int) -> PState {
    let xx = axis_high_first(p.pos.x, p.old_pos.x, p.radius, b, d);
    let yy = axis_low_first(p.pos.y, p.old_pos.y, p.radius, b, d);
    let zz = axis_high_first(p.pos.z, p.old_pos.z, p.radius, b, d);
    PState {
        pos: V3 { x: xx.0, y: yy.0, z: zz.0 },
        old_pos: V3 { x: xx.1, y: yy.1, z: zz.1 },
        acceleration: p.acceleration,
        radius: p.radius,
    }
}

/// After both faces of an axis ran, a particle that fits the box at all
/// (`2 * r <= b`) sits with its whole surface inside `[0, b]`; the
/// coordinates stay within the machine ranges regardless.
pub proof fn lemma_axis_contained(p: int, o: int, r: int, b: int, d: int)
    requires
        abs(p) <= INTEG_LIMIT,
        abs(o) <= POS_LIMIT,
        0 < r <= RADIUS_LIMIT,
        0 < b <= BOX_LIMIT,
        0 <= d <= SCALE,
    ensures
        2 * r <= b ==> r <= axis_low_first(p, o, r, b, d).0 <= b - r,
        2 * r <= b ==> r <= axis_high_first(p, o, r, b, d).0 <= b - r,
        -RADIUS_LIMIT <= axis_low_first(p, o, r, b, d).0 <= BOX_LIMIT,
        -RADIUS_LIMIT <= axis_high_first(p, o, r, b, d).0 <= BOX_LIMIT,
        abs(axis_low_first(p, o, r, b, d).1) <= BOUND_OLD_LIMIT,
        abs(axis_high_first(p, o, r, b, d).1) <= BOUND_OLD_LIMIT,
{
    lemma_damp_le(r - o, d);
    lemma_damp_le((b - r) - o, d);
    let lo = face_low(p, o, r, d);
    lemma_damp_le(r - lo.1, d);
    lemma_damp_le((b - r) - lo.1, d);
    let hi = face_high(p, o, r, b, d);
    lemma_damp_le(r - hi.1, d);
    lemma_damp_le((b - r) - hi.1, d);
}

/// `lemma_axis_contained`, lifted to the full particle state.
pub proof fn lemma_bound_contained(p: PState, b: int, d: int)
    requires
        p.pos.within(INTEG_LIMIT as int),
        p.old_pos.within(POS_LIMIT as int),
        0 < p.radius <= RADIUS_LIMIT,
        0 < b <= BOX_LIMIT,
        0 <= d <= SCALE,
    ensures
        2 * p.radius <= b ==> spec_bound(p, b, d).in_box(b),
        spec_bound(p, b, d).boxed(),
        spec_bound(p, b, d).old_pos.within(BOUND_OLD_LIMIT as int),
{
    lemma_axis_contained(p.pos.x, p.old_pos.x, p.radius, b, d);
    lemma_axis_contained(p.pos.y, p.old_pos.y, p.radius, b, d);
    lemma_axis_contained(p.pos.z, p.old_pos.z, p.radius, b, d);
}

/// Runs both faces of one axis, low face first.
fn bound_axis_low_first(p: i64, o: i64, r: i64, b: i64, d: i64) -> (res: (i64, i64))
    requires
        -INTEG_LIMIT <= p <= INTEG_LIMIT,
        -POS_LIMIT <= o <= POS_LIMIT,
        0 < r <= RADIUS_LIMIT,
        0 < b <= BOX_LIMIT,
        0 <= d <= SCALE,
    ensures
        (res.0 as int, res.1 as int) == axis_low_first(p as int, o as int, r as int, b as int, d as int),
{
    proof {
        lemma_axis_contained(p as int, o as int, r as int, b as int, d as int);
        lemma_damp_le(r - o, d as int);
        lemma_damp_le((b - r) - o, d as int);
    }
    let mut np = p;
    let mut no = o;
    if np - r < 0 {
        np = r;
        no = np + damp_exec(np - no, d);
    }
    if np + r > b {
        np = b - r;
        no = np + damp_exec(np - no, d);
    }
    (np, no)
}

/// Runs both faces of one axis, high face first.
fn bound_axis_high_first(p: i64, o: i64, r: i64, b: i64, d: i64) -> (res: (i64, i64))
    requires
        -INTEG_LIMIT <= p <= INTEG_LIMIT,
        -POS_LIMIT <= o <= POS_LIMIT,
        0 < r <= RADIUS_LIMIT,
        0 < b <= BOX_LIMIT,
        0 <= d <= SCALE,
    ensures
        (res.0 as int, res.1 as int) == axis_high_first(p as int, o as int, r as int, b as int, d as int),
{
    proof {
        lemma_axis_contained(p as int, o as int, r as int, b as int, d as int);
        lemma_damp_le(r - o, d as int);
        lemma_damp_le((b - r) - o, d as int);
    }
    let mut np = p;
    let mut no = o;
    if np + r > b {
        np = b - r;
        no = np + damp_exec(np - no, d);
    }
    if np - r < 0 {
        np = r;
        no = np + damp_exec(np - no, d);
    }
    (np, no)
}

/// The boundary pass: each particle is clamped to the box `[0, box_size]`
/// on every axis, its rebound damped; afterwards every particle that fits
/// the box at all is contained in it.
pub fn check_box_collision(particles: &mut Vec<Particle>, box_size: i64, damping: i64)
    requires
        0 < box_size <= BOX_LIMIT,
        0 <= damping <= SCALE,
        forall|i: int|
            0 <= i < old(particles)@.len() ==> {
                let p = (#[trigger] old(particles)@[i])@;
                &&& p.pos.within(INTEG_LIMIT as int)
                &&& p.old_pos.within(POS_LIMIT as int)
                &&& 0 < p.radius <= RADIUS_LIMIT
            },
    ensures
        final(particles)@.len() == old(particles)@.len(),
        forall|i: int|
            0 <= i < old(particles)@.len() ==> (#[trigger] final(particles)@[i])@
                == spec_bound(old(particles)@[i]@, box_size as int, damping as int),
        forall|i: int|
            0 <= i < old(particles)@.len()
                && 2 * old(particles)@[i]@.radius <= box_size
                ==> (#[trigger] final(particles)@[i])@.in_box(box_size as int),
        forall|i: int|
            0 <= i < old(particles)@.len() ==> {
                let q = (#[trigger] final(particles)@[i])@;
                &&& q.boxed()
                &&& q.old_pos.within(BOUND_OLD_LIMIT as int)
            },
{
    let n = particles.len();
    let mut i: usize = 0;
    while i < n
        invariant
            i <= n,
            n == particles@.len(),
            n == old(particles)@.len(),
            0 < box_size <= BOX_LIMIT,
            0 <= damping <= SCALE,
            forall|j: int| i <= j < n ==> #[trigger] particles@[j] == old(particles)@[j],
            forall|j: int|
                0 <= j < n ==> {
                    let p = (#[trigger] old(particles)@[j])@;
                    &&& p.pos.within(INTEG_LIMIT as int)
                    &&& p.old_pos.within(POS_LIMIT as int)
                    &&& 0 < p.radius <= RADIUS_LIMIT
                },
            forall|j: int|
                0 <= j < i ==> (#[trigger] particles@[j])@
                    == spec_bound(old(particles)@[j]@, box_size as int, damping as int),
        decreases n - i,
    {
        let p = particles[i];
        let xx = bound_axis_high_first(p.pos.x, p.old_pos.x, p.radius, box_size, damping);
        let yy = bound_axis_low_first(p.pos.y, p.old_pos.y, p.radius, box_size, damping);
        let zz = bound_axis_high_first(p.pos.z, p.old_pos.z, p.radius, box_size, damping);
        particles[i] = Particle {
            pos: Vec3i::new(xx.0, yy.0, zz.0),
            old_pos: Vec3i::new(xx.1, yy.1, zz.1),
            acceleration: p.acceleration,
            radius: p.radius,
        };
        i = i + 1;
    }
    proof {
        assert forall|i: int|
            0 <= i < old(particles)@.len()
                && 2 * old(particles)@[i]@.radius <= box_size
                implies (#[trigger] particles@[i])@.in_box(box_size as int) by {
            lemma_bound_contained(old(particles)@[i]@, box_size as int, damping as int);
        }
        assert forall|i: int| 0 <= i < old(particles)@.len() implies {
            let q = (#[trigger] particles@[i])@;
            &&& q.boxed()
            &&& q.old_pos.within(BOUND_OLD_LIMIT as int)
        } by {
            lemma_bound_contained(old(particles)@[i]@, box_size as int, damping as int);
        }
    }
}

} // verus!
