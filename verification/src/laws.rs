use vstd::prelude::*;
use vstd::arithmetic::div_mod::lemma_div_of0;
use crate::boundary::spec_bound;
use crate::collide::{
    apply_one, apply_upto, spec_detect, state_block_ids, state_overlap_pred, state_row_of,
};
use crate::grid::cell_of;
use crate::config::SimConfig;
use crate::integrate::{spec_gravity_step, spec_integrate};
use crate::math::{V3, SCALE};
use crate::particle::PState;
use crate::sim::{mid_states, substep_fn, substeps_fn};

verus! {

/// When both sides of a triple resolve, the pair moves symmetrically:
/// `a` by exactly `-corr`, `b` by exactly `+corr`, and nothing else moves.
pub proof fn lemma_apply_one_symmetric(ps: Seq<PState>, t: (int, int, V3), d: int)
    requires
        0 <= t.0 < ps.len(),
        0 <= t.1 < ps.len(),
        t.0 != t.1,
    ensures
        apply_one(ps, t, d).len() == ps.len(),
        apply_one(ps, t, d)[t.0].pos == ps[t.0].pos.minus(t.2),
        apply_one(ps, t, d)[t.1].pos == ps[t.1].pos.plus(t.2),
        forall|i: int|
            0 <= i < ps.len() && i != t.0 && i != t.1 ==> apply_one(ps, t, d)[i] == ps[i],
{
}

/// Under a strictly downward gravity step, a particle that is not rising
/// (its implied vertical velocity is zero or downward) strictly descends
/// in every integration step: the discrete Verlet recurrence is
/// monotonically decreasing in `y` on such states.
pub proof fn lemma_integration_descends(p: PState, gravity: V3, dt: int)
    requires
        spec_gravity_step(gravity, dt).y < 0,
        p.old_pos.y >= p.pos.y,
    ensures
        spec_integrate(p, gravity, dt).pos.y < p.pos.y,
{
}

/// With gravity disabled, the gravity step vanishes entirely.
pub proof fn lemma_zero_gravity_step(dt: int)
    ensures
        spec_gravity_step(V3 { x: 0, y: 0, z: 0 }, dt) == (V3 { x: 0, y: 0, z: 0 }),
{
    lemma_div_of0(SCALE as int);
}

/// Filtering with an everywhere-false predicate keeps nothing.
proof fn lemma_filter_none<T>(s: Seq<T>, pred: spec_fn(T) -> bool)
    requires
        forall|i: int| 0 <= i < s.len() ==> !pred(#[trigger] s[i]),
    ensures
        s.filter(pred).len() == 0,
    decreases s.len(),
{
    reveal(Seq::filter);
    if s.len() > 0 {
        lemma_filter_none(s.drop_last(), pred);
    }
}

/// A lone particle resting exactly on the floor — zero implied velocity,
/// vertical position equal to its radius, gravity disabled — is left
/// unchanged, field for field, by one whole sub-step.
pub proof fn lemma_rest_idempotent(cfg: SimConfig, p: PState)
    requires
        cfg.wf(),
        cfg.gravity@ == (V3 { x: 0, y: 0, z: 0 }),
        p.pos == p.old_pos,
        p.acceleration == (V3 { x: 0, y: 0, z: 0 }),
        p.pos.y == p.radius,
        0 < p.radius,
        2 * p.radius <= cfg.box_size,
        p.in_box(cfg.box_size as int),
    ensures
        substep_fn(seq![p], cfg) == seq![p],
{
    let s0 = seq![p];
    let s = cfg.cell_size as int;
    lemma_zero_gravity_step(cfg.sub_dt());
    let q = spec_integrate(p, cfg.gravity@, cfg.sub_dt());
    assert(q == p);
    let b = spec_bound(q, cfg.box_size as int, cfg.boundary_damping as int);
    assert(b == p);
    assert(mid_states(s0, cfg) =~= s0);
    // a lone particle has no ordered pair at all, so nothing is detected
    let row = state_row_of(s0, s, 0);
    lemma_filter_none(
        state_block_ids(s0, s, cell_of(p.pos, s), 27),
        state_overlap_pred(s0, 0),
    );
    assert(row.len() == 0);
    assert(spec_detect(s0, s, 0) =~= Seq::<(int, int, V3)>::empty());
    let cs = spec_detect(s0, s, 1);
    assert(cs =~= Seq::<(int, int, V3)>::empty());
    assert(substep_fn(s0, cfg) == apply_upto(s0, cs, 0, cfg.collision_damping as int));
}

/// `lemma_rest_idempotent`, across any number of sub-steps: the resting
/// particle is a fixed point of the whole orchestrated tick.
pub proof fn lemma_rest_idempotent_steps(cfg: SimConfig, p: PState, k: int)
    requires
        cfg.wf(),
        cfg.gravity@ == (V3 { x: 0, y: 0, z: 0 }),
        p.pos == p.old_pos,
        p.acceleration == (V3 { x: 0, y: 0, z: 0 }),
        p.pos.y == p.radius,
        0 < p.radius,
        2 * p.radius <= cfg.box_size,
        p.in_box(cfg.box_size as int),
        0 <= k,
    ensures
        substeps_fn(seq![p], cfg, k) == seq![p],
    decreases k,
{
    if k > 0 {
        lemma_rest_idempotent_steps(cfg, p, k - 1);
        lemma_rest_idempotent(cfg, p);
    }
}

} // verus!
