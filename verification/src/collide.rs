use vstd::prelude::*;
use crate::math::{
    damp, damp_exec, div_trunc, is_isqrt, isqrt, isqrt_s, lemma_isqrt_dominates, lemma_tdiv_le,
    tdiv, V3, Vec3i, SCALE,
};
use crate::particle::{
    Particle, PState, BOUND_OLD_LIMIT, BOX_LIMIT, CORR_LIMIT, MAX_PARTICLES, OLD_LIMIT, POS_LIMIT,
    RADIUS_LIMIT,
};
use crate::grid::{adjacent, block_cell, block_ids, cell_of, cell_row, lemma_filter_congruent, lemma_filter_push, Grid};
use vstd::arithmetic::div_mod::{lemma_div_is_ordered, lemma_div_plus_one};

verus! {

/// Squared-distance floor below which a pair is treated as coincident and
/// produces no correction, guarding the normalisation against a
/// zero-distance singularity (`0.0001` square units, in sub-units).
pub const EPS: i64 = 100_000_000;

/// The squared distance between two points.
pub open spec fn delta_sq(a: V3, b: V3) -> int {
    (b.x - a.x) * (b.x - a.x) + (b.y - a.y) * (b.y - a.y) + (b.z - a.z) * (b.z - a.z)
}

/// The overlap test: centres closer than the radii sum, but farther than
/// the coincidence guard.
pub open spec fn colliding(a: PState, b: PState) -> bool {
    let d2 = delta_sq(a.pos, b.pos);
    let m = a.radius + b.radius;
    d2 < m * m && d2 > EPS
}

/// The positional correction for an overlapping pair: the unit vector from
/// `a` to `b`, scaled by half the overlap — as one fixed-point quotient
/// `delta * overlap / (2 * dist)` per component.
pub open spec fn spec_correction(a: PState, b: PState) -> V3 {
    let d2 = delta_sq(a.pos, b.pos);
    let dist = isqrt_s(d2);
    let ov = a.radius + b.radius - dist;
    V3 {
        x: tdiv((b.pos.x - a.pos.x) * ov, 2 * dist),
        y: tdiv((b.pos.y - a.pos.y) * ov, 2 * dist),
        z: tdiv((b.pos.z - a.pos.z) * ov, 2 * dist),
    }
}

/// One recorded detection: move `a` by `-corr` and `b` by `+corr`.
#[derive(Clone, Copy, Debug, PartialEq, Eq, Structural)]
pub struct Collision {
    pub a: usize,
    pub b: usize,
    pub corr: Vec3i,
}

impl View for Collision {
    type V = (int, int, V3);

    open spec fn view(&self) -> (int, int, V3) {
        (self.a as int, self.b as int, self.corr@)
    }
}

/// The particle collection as a sequence of mathematical states.
pub open spec fn pviews(ps: Seq<Particle>) -> Seq<PState> {
    ps.map_values(|p: Particle| p@)
}

/// The recorded detections as mathematical triples.
pub open spec fn cviews(cs: Seq<Collision>) -> Seq<(int, int, V3)> {
    cs.map_values(|c: Collision| c@)
}

/// Every recorded triple names an ordered, genuinely overlapping pair and
/// carries exactly its correction.
pub open spec fn detect_sound(cs: Seq<(int, int, V3)>, ps: Seq<PState>) -> bool {
    forall|k: int|
        0 <= k < cs.len() ==> {
            let t = #[trigger] cs[k];
            &&& 0 <= t.0 < t.1 < ps.len()
            &&& colliding(ps[t.0], ps[t.1])
            &&& t.2 == spec_correction(ps[t.0], ps[t.1])
        }
}

/// Every overlapping pair whose combined radius fits one grid cell is
/// recorded. (A pair wider than a cell can straddle more than one cell
/// step and the broad phase owes nothing for it.)
pub open spec fn detect_complete(cs: Seq<(int, int, V3)>, ps: Seq<PState>, cell: int) -> bool {
    forall|a: int, b: int|
        0 <= a < b < ps.len() && #[trigger] colliding(ps[a], ps[b]) && ps[a].radius + ps[b].radius
            <= cell ==> exists|k: int| 0 <= k < cs.len() && (#[trigger] cs[k]).0 == a && cs[k].1 == b
}

/// No unordered pair is recorded twice.
pub open spec fn detect_unique(cs: Seq<(int, int, V3)>) -> bool {
    forall|k1: int, k2: int|
        0 <= k1 < k2 < cs.len() ==> !((#[trigger] cs[k1]).0 == (#[trigger] cs[k2]).0 && cs[k1].1
            == cs[k2].1)
}

/// Triples are recorded in rounds: the first identity never decreases
/// along the record.
pub open spec fn detect_ordered(cs: Seq<(int, int, V3)>) -> bool {
    forall|k1: int, k2: int|
        0 <= k1 < k2 < cs.len() ==> (#[trigger] cs[k1]).0 <= (#[trigger] cs[k2]).0
}

/// Everything the detect phase promises of its recorded triples.
pub open spec fn detect_chars(cs: Seq<(int, int, V3)>, ps: Seq<PState>, cell: int) -> bool {
    &&& detect_sound(cs, ps)
    &&& detect_complete(cs, ps, cell)
    &&& detect_unique(cs)
    &&& detect_ordered(cs)
}

/// One particle displaced by `sign * corr`, its previous position by the
/// damped correction — so the implied velocity changes by the undamped
/// remainder.
pub open spec fn moved(p: PState, corr: V3, sign: int, d: int) -> PState {
    PState {
        pos: V3 {
            x: p.pos.x + sign * corr.x,
            y: p.pos.y + sign * corr.y,
            z: p.pos.z + sign * corr.z,
        },
        old_pos: V3 {
            x: p.old_pos.x + sign * damp(corr.x, d),
            y: p.old_pos.y + sign * damp(corr.y, d),
            z: p.old_pos.z + sign * damp(corr.z, d),
        },
        acceleration: p.acceleration,
        radius: p.radius,
    }
}

/// One recorded triple applied: `a` pushed away from `b`, `b` away from
/// `a`, each side skipped silently if its identity no longer resolves.
pub open spec fn apply_one(ps: Seq<PState>, t: (int, int, V3), d: int) -> Seq<PState> {
    let ps1 = if 0 <= t.0 < ps.len() {
        ps.update(t.0, moved(ps[t.0], t.2, -1, d))
    } else {
        ps
    };
    if 0 <= t.1 < ps1.len() {
        ps1.update(t.1, moved(ps1[t.1], t.2, 1, d))
    } else {
        ps1
    }
}

/// The first `k` recorded triples applied in order.
pub open spec fn apply_upto(ps: Seq<PState>, cs: Seq<(int, int, V3)>, k: int, d: int) -> Seq<
    PState,
>
    decreases k,
{
    if k <= 0 {
        ps
    } else {
        apply_one(apply_upto(ps, cs, k - 1, d), cs[k - 1], d)
    }
}

/// The apply phase: each recorded triple pushes its pair apart, in the
/// order the triples were recorded; corrections touching the same particle
/// accumulate. A triple whose identity does not resolve is skipped
/// silently.
#[verifier::rlimit(100)]
pub fn apply_corrections(particles: &mut Vec<Particle>, collisions: &Vec<Collision>, damping: i64)
    requires
        0 <= damping <= SCALE,
        collisions@.len() <= MAX_PARTICLES * MAX_PARTICLES,
        forall|k: int|
            0 <= k < collisions@.len() ==> {
                let t = (#[trigger] collisions@[k])@;
                &&& t.2.within(CORR_LIMIT as int)
                &&& t.0 != t.1
            },
        forall|i: int|
            0 <= i < old(particles)@.len() ==> {
                let p = (#[trigger] old(particles)@[i])@;
                &&& p.boxed()
                &&& p.old_pos.within(BOUND_OLD_LIMIT as int)
            },
    ensures
        final(particles)@.len() == old(particles)@.len(),
        pviews(final(particles)@) == apply_upto(
            pviews(old(particles)@),
            cviews(collisions@),
            collisions@.len() as int,
            damping as int,
        ),
        forall|i: int|
            0 <= i < old(particles)@.len() ==> {
                let p = (#[trigger] final(particles)@[i])@;
                &&& p.pos.within(POS_LIMIT as int)
                &&& p.old_pos.within(OLD_LIMIT as int)
                &&& p.radius == old(particles)@[i]@.radius
                &&& p.acceleration == old(particles)@[i]@.acceleration
            },
{
    let n = particles.len();
    let m = collisions.len();
    let mut k: usize = 0;
    while k < m
        invariant
            k <= m,
            m == collisions@.len(),
            m <= MAX_PARTICLES * MAX_PARTICLES,
            n == particles@.len(),
            n == old(particles)@.len(),
            0 <= damping <= SCALE,
            forall|kk: int|
                0 <= kk < m ==> {
                    let t = (#[trigger] collisions@[kk])@;
                    &&& t.2.within(CORR_LIMIT as int)
                    &&& t.0 != t.1
                },
            pviews(particles@) == apply_upto(
                pviews(old(particles)@),
                cviews(collisions@),
                k as int,
                damping as int,
            ),
            forall|i: int|
                0 <= i < n ==> {
                    let p = (#[trigger] particles@[i])@;
                    let q = old(particles)@[i]@;
                    &&& p.pos.within(BOX_LIMIT + k * CORR_LIMIT)
                    &&& p.old_pos.within(BOUND_OLD_LIMIT + k * CORR_LIMIT)
                    &&& p.radius == q.radius
                    &&& p.acceleration == q.acceleration
                },
        decreases m - k,
    {
        let c = collisions[k];
        let ghost mid0 = pviews(particles@);
        let ghost dd = damping as int;
        if c.a < n {
            let p = particles[c.a];
            let wx = damp_exec(c.corr.x, damping);
            let wy = damp_exec(c.corr.y, damping);
            let wz = damp_exec(c.corr.z, damping);
            particles[c.a] = Particle {
                pos: Vec3i::new(p.pos.x - c.corr.x, p.pos.y - c.corr.y, p.pos.z - c.corr.z),
                old_pos: Vec3i::new(p.old_pos.x - wx, p.old_pos.y - wy, p.old_pos.z - wz),
                acceleration: p.acceleration,
                radius: p.radius,
            };
        }
        let ghost mid1 = pviews(particles@);
        if c.b < n {
            let p = particles[c.b];
            let wx = damp_exec(c.corr.x, damping);
            let wy = damp_exec(c.corr.y, damping);
            let wz = damp_exec(c.corr.z, damping);
            particles[c.b] = Particle {
                pos: Vec3i::new(p.pos.x + c.corr.x, p.pos.y + c.corr.y, p.pos.z + c.corr.z),
                old_pos: Vec3i::new(p.old_pos.x + wx, p.old_pos.y + wy, p.old_pos.z + wz),
                acceleration: p.acceleration,
                radius: p.radius,
            };
        }
        proof {
            let cv = cviews(collisions@)[k as int];
            assert(cv == (c.a as int, c.b as int, c.corr@));
            if c.a < n {
                assert(mid1 =~= mid0.update(cv.0, moved(mid0[cv.0], cv.2, -1, dd)));
            } else {
                assert(mid1 =~= mid0);
            }
            if c.b < n {
                assert(pviews(particles@) =~= mid1.update(cv.1, moved(mid1[cv.1], cv.2, 1, dd)));
            } else {
                assert(pviews(particles@) =~= mid1);
            }
            assert(pviews(particles@) == apply_one(mid0, cv, dd));
        }
        k = k + 1;
    }
}

/// The grid holds exactly the particles' identities, each at the cell of
/// its current position.
pub open spec fn grid_matches(g: Grid, ps: Seq<Particle>) -> bool {
    forall|id: usize, c: (int, int, int)|
        #[trigger] g.cell_ids(c).contains(id) <==> (id as int) < ps.len() && c == cell_of(
            ps[id as int]@.pos,
            g.cell_size as int,
        )
}

/// Coordinates at most one cell edge apart fall in the same or adjacent
/// cells.
proof fn lemma_axis_adjacent(u: int, v: int, s: int)
    requires
        s >= 1,
        -s <= v - u <= s,
    ensures
        -1 <= v / s - u / s <= 1,
{
    lemma_div_is_ordered(v, u + s, s);
    lemma_div_plus_one(u, s);
    lemma_div_is_ordered(u, v + s, s);
    lemma_div_plus_one(v, s);
}

/// An overlapping pair whose combined radius fits one cell edge occupies
/// the same or adjacent cells.
pub proof fn lemma_colliding_adjacent(a: PState, b: PState, s: int)
    requires
        colliding(a, b),
        0 < a.radius,
        0 < b.radius,
        a.radius + b.radius <= s,
    ensures
        adjacent(cell_of(b.pos, s), cell_of(a.pos, s)),
{
    let m = a.radius + b.radius;
    let d2 = delta_sq(a.pos, b.pos);
    let dx = b.pos.x - a.pos.x;
    let dy = b.pos.y - a.pos.y;
    let dz = b.pos.z - a.pos.z;
    assert(dx * dx <= d2 && dy * dy <= d2 && dz * dz <= d2) by (nonlinear_arith)
        requires d2 == dx * dx + dy * dy + dz * dz;
    assert(-m <= dx <= m && -m <= dy <= m && -m <= dz <= m) by (nonlinear_arith)
        requires dx * dx < m * m, dy * dy < m * m, dz * dz < m * m, m > 0;
    lemma_axis_adjacent(a.pos.x, b.pos.x, s);
    lemma_axis_adjacent(a.pos.y, b.pos.y, s);
    lemma_axis_adjacent(a.pos.z, b.pos.z, s);
}

/// A duplicate-free sequence of identities below `n` has at most `n`
/// entries.
proof fn lemma_no_dup_bounded(s: Seq<usize>, n: int)
    requires
        s.no_duplicates(),
        forall|i: int| 0 <= i < s.len() ==> (#[trigger] s[i]) < n,
        0 <= n,
    ensures
        s.len() <= n,
{
    broadcast use vstd::seq_lib::seq_to_set_is_finite;
    broadcast use vstd::set::group_set_axioms;

    let t = s.map_values(|x: usize| x as int);
    assert(t.no_duplicates()) by {
        assert forall|i: int, j: int|
            0 <= i < t.len() && 0 <= j < t.len() && i != j implies t[i] != t[j] by {
            assert(s[i] != s[j]);
        }
    }
    t.unique_seq_to_set();
    assert(t.to_set() <= vstd::set_lib::set_int_range(0, n)) by {
        assert forall|x: int| t.to_set().contains(x) implies vstd::set_lib::set_int_range(
            0,
            n,
        ).contains(x) by {
            assert(t.contains(x));
            let i = choose|i: int| 0 <= i < t.len() && t[i] == x;
            assert(s[i] < n);
        }
    }
    vstd::set_lib::lemma_int_range(0, n);
    vstd::set_lib::lemma_len_subset(t.to_set(), vstd::set_lib::set_int_range(0, n));
}

/// The exact positional correction for one overlapping pair.
fn compute_correction(pa: Particle, pb: Particle) -> (r: Vec3i)
    requires
        pa@.boxed(),
        pb@.boxed(),
        0 < pa.radius <= RADIUS_LIMIT,
        0 < pb.radius <= RADIUS_LIMIT,
        colliding(pa@, pb@),
    ensures
        r@ == spec_correction(pa@, pb@),
        r@.within(CORR_LIMIT as int),
{
    let dx = pb.pos.x - pa.pos.x;
    let dy = pb.pos.y - pa.pos.y;
    let dz = pb.pos.z - pa.pos.z;
    proof {
        assert(0 <= dx * dx <= 2_250_000_000_000_000_000 && 0 <= dy * dy
            <= 2_250_000_000_000_000_000 && 0 <= dz * dz <= 2_250_000_000_000_000_000)
            by (nonlinear_arith)
            requires
                -1_500_000_000 <= dx <= 1_500_000_000,
                -1_500_000_000 <= dy <= 1_500_000_000,
                -1_500_000_000 <= dz <= 1_500_000_000,
        ;
    }
    let d2 = dx * dx + dy * dy + dz * dz;
    let min_dist = pa.radius + pb.radius;
    let dist_u = isqrt(d2 as u64);
    let ghost di = d2 as int;
    proof {
        assert(di == delta_sq(pa@.pos, pb@.pos));
        assert(di < (min_dist as int) * (min_dist as int));
        // the root is at least one (the pair is past the coincidence guard)
        // and strictly below the radii sum (the pair overlaps)
        assert(dist_u as int >= 1 && (dist_u as int) < min_dist as int) by (nonlinear_arith)
            requires
                is_isqrt(di, dist_u as int),
                di > EPS as int,
                di < (min_dist as int) * (min_dist as int),
                min_dist as int > 0,
        ;
    }
    let dist = dist_u as i64;
    let ov = min_dist - dist;
    proof {
        lemma_isqrt_dominates(di, dist as int, dx as int);
        lemma_isqrt_dominates(di, dist as int, dy as int);
        lemma_isqrt_dominates(di, dist as int, dz as int);
        assert(-(RADIUS_LIMIT as int) * (2 * dist) <= (dx as int) * (ov as int)
            <= (RADIUS_LIMIT as int) * (2 * dist)) by (nonlinear_arith)
            requires
                -dist <= dx as int <= dist,
                0 < ov as int <= 2 * RADIUS_LIMIT,
                dist as int >= 1,
        ;
        assert(-(RADIUS_LIMIT as int) * (2 * dist) <= (dy as int) * (ov as int)
            <= (RADIUS_LIMIT as int) * (2 * dist)) by (nonlinear_arith)
            requires
                -dist <= dy as int <= dist,
                0 < ov as int <= 2 * RADIUS_LIMIT,
                dist as int >= 1,
        ;
        assert(-(RADIUS_LIMIT as int) * (2 * dist) <= (dz as int) * (ov as int)
            <= (RADIUS_LIMIT as int) * (2 * dist)) by (nonlinear_arith)
            requires
                -dist <= dz as int <= dist,
                0 < ov as int <= 2 * RADIUS_LIMIT,
                dist as int >= 1,
        ;
        lemma_tdiv_le((dx as int) * (ov as int), 2 * dist, RADIUS_LIMIT as int);
        lemma_tdiv_le((dy as int) * (ov as int), 2 * dist, RADIUS_LIMIT as int);
        lemma_tdiv_le((dz as int) * (ov as int), 2 * dist, RADIUS_LIMIT as int);
    }
    Vec3i::new(
        div_trunc(dx * ov, 2 * dist),
        div_trunc(dy * ov, 2 * dist),
        div_trunc(dz * ov, 2 * dist),
    )
}

/// Holds of a neighbour identity `b` exactly when the ordered pair
/// `(a, b)` is live and genuinely overlapping.
pub open spec fn overlap_pred(ps: Seq<Particle>, a: int) -> spec_fn(usize) -> bool {
    |b: usize| a < b as int && (b as int) < ps.len() && colliding(ps[a as int]@, ps[b as int]@)
}

/// Builds the recorded triple for a neighbour identity.
pub open spec fn triple_fn(ps: Seq<Particle>, a: int) -> spec_fn(usize) -> (int, int, V3) {
    |b: usize| (a, b as int, spec_correction(ps[a as int]@, ps[b as int]@))
}

/// Particle `a`'s row of the detect record: its grid neighbourhood in
/// block order, narrowed to overlapping greater identities, as triples.
pub open spec fn row_of(g: Grid, ps: Seq<Particle>, a: int) -> Seq<(int, int, V3)> {
    block_ids(g, cell_of(ps[a]@.pos, g.cell_size as int), 27).filter(
        overlap_pred(ps, a),
    ).map_values(triple_fn(ps, a))
}

/// The whole detect record, row by row: the detect phase is
/// deterministic, and this is its exact output.
pub open spec fn detect_seq(g: Grid, ps: Seq<Particle>, n: int) -> Seq<(int, int, V3)>
    decreases n,
{
    if n <= 0 {
        Seq::empty()
    } else {
        detect_seq(g, ps, n - 1) + row_of(g, ps, n - 1)
    }
}

/// The identities whose state sits in cell `c`, in ascending order:
/// the grid-free mirror of one rebuilt grid cell.
pub open spec fn state_cell_row(ps: Seq<PState>, s: int, c: (int, int, int)) -> Seq<usize> {
    Seq::new(ps.len(), |i: int| i as usize).filter(
        |id: usize| cell_of(ps[id as int].pos, s) == c,
    )
}

/// The first `k` cells of the block around `cv`, grid-free.
pub open spec fn state_block_ids(ps: Seq<PState>, s: int, cv: (int, int, int), k: int) -> Seq<
    usize,
>
    decreases k,
{
    if k <= 0 {
        Seq::empty()
    } else {
        state_block_ids(ps, s, cv, k - 1) + state_cell_row(ps, s, block_cell(cv, k - 1))
    }
}

/// `overlap_pred`, over mathematical states.
pub open spec fn state_overlap_pred(ps: Seq<PState>, a: int) -> spec_fn(usize) -> bool {
    |b: usize| a < b as int && (b as int) < ps.len() && colliding(ps[a as int], ps[b as int])
}

/// `triple_fn`, over mathematical states.
pub open spec fn state_triple_fn(ps: Seq<PState>, a: int) -> spec_fn(usize) -> (int, int, V3) {
    |b: usize| (a, b as int, spec_correction(ps[a as int], ps[b as int]))
}

/// Particle `a`'s row of the detect record, grid-free.
pub open spec fn state_row_of(ps: Seq<PState>, s: int, a: int) -> Seq<(int, int, V3)> {
    state_block_ids(ps, s, cell_of(ps[a].pos, s), 27).filter(state_overlap_pred(ps, a)).map_values(
        state_triple_fn(ps, a),
    )
}

/// The whole detect record as a function of the states alone: what the
/// detect phase returns over a freshly rebuilt grid.
pub open spec fn spec_detect(ps: Seq<PState>, s: int, n: int) -> Seq<(int, int, V3)>
    decreases n,
{
    if n <= 0 {
        Seq::empty()
    } else {
        spec_detect(ps, s, n - 1) + state_row_of(ps, s, n - 1)
    }
}

/// Over a freshly rebuilt grid, the grid-based detect record is the
/// grid-free one.
pub proof fn lemma_detect_seq_abstract(g: Grid, ps: Seq<Particle>, n: int)
    requires
        forall|c: (int, int, int)| #[trigger] g.cell_ids(c) == cell_row(ps, g.cell_size as int, c),
        0 <= n <= ps.len(),
    ensures
        detect_seq(g, ps, n) == spec_detect(pviews(ps), g.cell_size as int, n),
    decreases n,
{
    let s = g.cell_size as int;
    if n > 0 {
        lemma_detect_seq_abstract(g, ps, n - 1);
        let a = n - 1;
        let cv = cell_of(ps[a]@.pos, s);
        assert(cv == cell_of(pviews(ps)[a].pos, s));
        lemma_block_ids_abstract(g, ps, cv, 27);
        let ids = state_block_ids(pviews(ps), s, cv, 27);
        lemma_filter_congruent(ids, overlap_pred(ps, a), state_overlap_pred(pviews(ps), a));
        let flt = ids.filter(state_overlap_pred(pviews(ps), a));
        assert(flt.map_values(triple_fn(ps, a)) =~= flt.map_values(
            state_triple_fn(pviews(ps), a),
        ));
        assert(row_of(g, ps, a) == state_row_of(pviews(ps), s, a));
    }
}

/// Over a freshly rebuilt grid, the block contents are the grid-free ones.
proof fn lemma_block_ids_abstract(g: Grid, ps: Seq<Particle>, cv: (int, int, int), k: int)
    requires
        forall|c: (int, int, int)| #[trigger] g.cell_ids(c) == cell_row(ps, g.cell_size as int, c),
        0 <= k,
    ensures
        block_ids(g, cv, k) == state_block_ids(pviews(ps), g.cell_size as int, cv, k),
    decreases k,
{
    let s = g.cell_size as int;
    if k > 0 {
        lemma_block_ids_abstract(g, ps, cv, k - 1);
        let c = block_cell(cv, k - 1);
        lemma_filter_congruent(
            Seq::new(ps.len(), |i: int| i as usize),
            |id: usize| cell_of(ps[id as int]@.pos, s) == c,
            |id: usize| cell_of(pviews(ps)[id as int].pos, s) == c,
        );
        assert(Seq::new(ps.len(), |i: int| i as usize) =~= Seq::new(
            pviews(ps).len(),
            |i: int| i as usize,
        ));
        assert(cell_row(ps, s, c) == state_cell_row(pviews(ps), s, c));
    }
}

/// The detect phase. Every particle queries its grid neighbourhood; each
/// neighbour with the greater identity is tested, so every unordered pair
/// is evaluated exactly once; each genuine overlap is recorded with its
/// correction. Nothing is mutated in this phase.
#[verifier::rlimit(100)]
pub fn detect_collisions(grid: &Grid, particles: &Vec<Particle>) -> (r: Vec<Collision>)
    requires
        grid.wf(),
        grid.ids_unique(),
        grid_matches(*grid, particles@),
        particles@.len() <= MAX_PARTICLES,
        forall|i: int|
            0 <= i < particles@.len() ==> {
                let p = (#[trigger] particles@[i])@;
                &&& p.boxed()
                &&& 0 < p.radius <= RADIUS_LIMIT
            },
    ensures
        cviews(r@) == detect_seq(*grid, particles@, particles@.len() as int),
        detect_chars(cviews(r@), pviews(particles@), grid.cell_size as int),
        r@.len() <= particles@.len() * particles@.len(),
        forall|k: int|
            0 <= k < r@.len() ==> {
                let t = (#[trigger] r@[k])@;
                &&& t.2.within(CORR_LIMIT as int)
                &&& t.0 != t.1
            },
{
    let n = particles.len();
    let mut out: Vec<Collision> = Vec::new();
    proof {
        assert(cviews(out@) =~= detect_seq(*grid, particles@, 0));
    }
    let mut a: usize = 0;
    while a < n
        invariant
            a <= n,
            n == particles@.len(),
            n <= MAX_PARTICLES,
            grid.wf(),
            grid.ids_unique(),
            grid_matches(*grid, particles@),
            forall|i: int|
                0 <= i < n ==> {
                    let p = (#[trigger] particles@[i])@;
                    &&& p.boxed()
                    &&& 0 < p.radius <= RADIUS_LIMIT
                },
            cviews(out@) == detect_seq(*grid, particles@, a as int),
            detect_sound(cviews(out@), pviews(particles@)),
            detect_unique(cviews(out@)),
            detect_ordered(cviews(out@)),
            forall|k: int| 0 <= k < out@.len() ==> (#[trigger] out@[k]).a < a,
            forall|k: int|
                0 <= k < out@.len() ==> (#[trigger] out@[k])@.2.within(CORR_LIMIT as int),
            out@.len() <= a * n,
            forall|x: int, y: int|
                0 <= x < y < n && x < a && #[trigger] colliding(
                    pviews(particles@)[x],
                    pviews(particles@)[y],
                ) && pviews(particles@)[x].radius + pviews(particles@)[y].radius
                    <= grid.cell_size ==> exists|k: int|
                    0 <= k < cviews(out@).len() && (#[trigger] cviews(out@)[k]).0 == x && cviews(
                        out@,
                    )[k].1 == y,
        decreases n - a,
    {
        let pa = particles[a];
        let neighbors = grid.get_neighbors(pa.pos);
        let m = neighbors.len();
        proof {
            assert forall|tt: int| 0 <= tt < m implies (#[trigger] neighbors@[tt]) < n by {
                assert(neighbors@.contains(neighbors@[tt]));
            }
            lemma_no_dup_bounded(neighbors@, n as int);
        }
        let mut t: usize = 0;
        while t < m
            invariant
                t <= m,
                a < n,
                n == particles@.len(),
                n <= MAX_PARTICLES,
                m == neighbors@.len(),
                m <= n,
                grid.wf(),
                grid.ids_unique(),
                grid_matches(*grid, particles@),
                pa == particles@[a as int],
                forall|i: int|
                    0 <= i < n ==> {
                        let p = (#[trigger] particles@[i])@;
                        &&& p.boxed()
                        &&& 0 < p.radius <= RADIUS_LIMIT
                    },
                neighbors@.no_duplicates(),
                neighbors@ == block_ids(
                    *grid,
                    cell_of(particles@[a as int]@.pos, grid.cell_size as int),
                    27,
                ),
                cviews(out@) == detect_seq(*grid, particles@, a as int) + neighbors@.take(
                    t as int,
                ).filter(overlap_pred(particles@, a as int)).map_values(
                    triple_fn(particles@, a as int),
                ),
                forall|tt: int| 0 <= tt < m ==> (#[trigger] neighbors@[tt]) < n,
                forall|id: usize|
                    #[trigger] neighbors@.contains(id) <==> exists|c2: (int, int, int)|
                        adjacent(c2, cell_of(particles@[a as int]@.pos, grid.cell_size as int))
                            && (#[trigger] grid.cell_ids(c2)).contains(id),
                detect_sound(cviews(out@), pviews(particles@)),
                detect_unique(cviews(out@)),
                detect_ordered(cviews(out@)),
                forall|k: int| 0 <= k < out@.len() ==> (#[trigger] out@[k]).a <= a,
                forall|k: int|
                    0 <= k < out@.len() ==> (#[trigger] out@[k])@.2.within(CORR_LIMIT as int),
                out@.len() <= a * n + t,
                forall|k: int|
                    0 <= k < out@.len() && (#[trigger] out@[k]).a == a ==> exists|tt: int|
                        0 <= tt < t && neighbors@[tt] == out@[k].b,
                forall|tt: int|
                    0 <= tt < t && (#[trigger] neighbors@[tt]) > a && colliding(
                        pviews(particles@)[a as int],
                        pviews(particles@)[neighbors@[tt] as int],
                    ) ==> exists|k: int|
                        0 <= k < cviews(out@).len() && (#[trigger] cviews(out@)[k]).0 == a
                            && cviews(out@)[k].1 == neighbors@[tt],
                forall|x: int, y: int|
                    0 <= x < y < n && x < a && #[trigger] colliding(
                        pviews(particles@)[x],
                        pviews(particles@)[y],
                    ) && pviews(particles@)[x].radius + pviews(particles@)[y].radius
                        <= grid.cell_size ==> exists|k: int|
                        0 <= k < cviews(out@).len() && (#[trigger] cviews(out@)[k]).0 == x
                            && cviews(out@)[k].1 == y,
            decreases m - t,
        {
            let b = neighbors[t];
            proof {
                assert(neighbors@[t as int] < n);
            }
            let mut pushed = false;
            let ghost pre = out@;
            if b > a {
                let pb = particles[b];
                let dx = pb.pos.x - pa.pos.x;
                let dy = pb.pos.y - pa.pos.y;
                let dz = pb.pos.z - pa.pos.z;
                proof {
                    assert(0 <= dx * dx <= 2_250_000_000_000_000_000 && 0 <= dy * dy
                        <= 2_250_000_000_000_000_000 && 0 <= dz * dz <= 2_250_000_000_000_000_000)
                        by (nonlinear_arith)
                        requires
                            -1_500_000_000 <= dx <= 1_500_000_000,
                            -1_500_000_000 <= dy <= 1_500_000_000,
                            -1_500_000_000 <= dz <= 1_500_000_000,
                    ;
                    assert(0 <= (pa.radius + pb.radius) * ((pa.radius as int) + pb.radius)
                        <= 1_000_000_000_000_000_000) by (nonlinear_arith)
                        requires
                            0 < pa.radius as int <= RADIUS_LIMIT,
                            0 < pb.radius as int <= RADIUS_LIMIT,
                    ;
                }
                let d2 = dx * dx + dy * dy + dz * dz;
                let min_dist = pa.radius + pb.radius;
                let m2 = min_dist * min_dist;
                if d2 < m2 && d2 > EPS {
                    proof {
                        assert(colliding(pviews(particles@)[a as int], pviews(particles@)[b as int]));
                        if exists|k: int|
                            0 <= k < pre.len() && (#[trigger] pre[k]).a == a && pre[k].b == b {
                            let k = choose|k: int|
                                0 <= k < pre.len() && (#[trigger] pre[k]).a == a && pre[k].b == b;
                            let tt = choose|tt: int| 0 <= tt < t && neighbors@[tt] == pre[k].b;
                            assert(neighbors@[tt] == neighbors@[t as int]);
                            assert(false);
                        }
                    }
                    let corr = compute_correction(pa, pb);
                    out.push(Collision { a, b, corr });
                    pushed = true;
                } else {
                    proof {
                        assert(!colliding(pviews(particles@)[a as int], pviews(particles@)[b as int]));
                    }
                }
            }
            proof {
                let gpred = overlap_pred(particles@, a as int);
                let gf = triple_fn(particles@, a as int);
                let row_pre = neighbors@.take(t as int).filter(gpred).map_values(gf);
                assert(neighbors@.take(t as int + 1) =~= neighbors@.take(t as int).push(b));
                lemma_filter_push(neighbors@.take(t as int), b, gpred);
                if pushed {
                    assert(cviews(out@) =~= cviews(pre).push((a as int, b as int, out@.last().corr@)));
                    assert forall|k: int|
                        0 <= k < out@.len() && (#[trigger] out@[k]).a == a implies exists|tt: int|
                        0 <= tt < t + 1 && neighbors@[tt] == out@[k].b by {
                        if k < pre.len() {
                            let tt = choose|tt: int| 0 <= tt < t && neighbors@[tt] == pre[k].b;
                            assert(0 <= tt < t + 1 && neighbors@[tt] == out@[k].b);
                        } else {
                            assert(neighbors@[t as int] == out@[k].b);
                        }
                    }
                    assert(gpred(b));
                    assert(neighbors@.take(t as int + 1).filter(gpred) =~= neighbors@.take(
                        t as int,
                    ).filter(gpred).push(b));
                    assert(neighbors@.take(t as int + 1).filter(gpred).map_values(gf) =~= row_pre
                        .push(gf(b)));
                    assert(gf(b) == (a as int, b as int, out@.last().corr@));
                    assert(cviews(out@) =~= detect_seq(*grid, particles@, a as int)
                        + neighbors@.take(t as int + 1).filter(gpred).map_values(gf));
                } else {
                    assert(out@ == pre);
                    assert(!gpred(b));
                    assert(neighbors@.take(t as int + 1).filter(gpred) =~= neighbors@.take(
                        t as int,
                    ).filter(gpred));
                    assert(cviews(out@) == detect_seq(*grid, particles@, a as int)
                        + neighbors@.take(t as int + 1).filter(gpred).map_values(gf));
                }
                // every neighbour processed so far that overlaps is recorded
                assert forall|tt: int|
                    0 <= tt < t + 1 && (#[trigger] neighbors@[tt]) > a && colliding(
                        pviews(particles@)[a as int],
                        pviews(particles@)[neighbors@[tt] as int],
                    ) implies exists|k: int|
                        0 <= k < cviews(out@).len() && (#[trigger] cviews(out@)[k]).0 == a
                            && cviews(out@)[k].1 == neighbors@[tt] by {
                    if tt == t {
                        let kk = out@.len() - 1;
                        assert(b == neighbors@[tt]);
                        assert(cviews(out@)[kk].0 == a && cviews(out@)[kk].1 == neighbors@[tt]);
                    } else {
                        let k0 = choose|k: int|
                            0 <= k < cviews(pre).len() && (#[trigger] cviews(pre)[k]).0 == a
                                && cviews(pre)[k].1 == neighbors@[tt];
                        assert(cviews(out@)[k0].0 == a && cviews(out@)[k0].1 == neighbors@[tt]);
                    }
                }
                // pairs finished in earlier outer rounds stay recorded
                assert forall|x: int, y: int|
                    0 <= x < y < n && x < a && #[trigger] colliding(
                        pviews(particles@)[x],
                        pviews(particles@)[y],
                    ) && pviews(particles@)[x].radius + pviews(particles@)[y].radius
                        <= grid.cell_size implies exists|k: int|
                        0 <= k < cviews(out@).len() && (#[trigger] cviews(out@)[k]).0 == x
                            && cviews(out@)[k].1 == y by {
                    let k0 = choose|k: int|
                        0 <= k < cviews(pre).len() && (#[trigger] cviews(pre)[k]).0 == x && cviews(
                            pre,
                        )[k].1 == y;
                    assert(cviews(out@)[k0].0 == x && cviews(out@)[k0].1 == y);
                }
            }
            t = t + 1;
        }
        let ghost a_done = a as int;
        a = a + 1;
        proof {
            assert((a_done + 1) * (n as int) == a_done * (n as int) + n) by (nonlinear_arith);
            assert(neighbors@.take(m as int) =~= neighbors@);
            assert(cviews(out@) == detect_seq(*grid, particles@, a_done)
                + row_of(*grid, particles@, a_done));
            assert(cviews(out@) == detect_seq(*grid, particles@, a_done + 1));
            assert forall|x: int, y: int|
                0 <= x < y < n && x < a && #[trigger] colliding(
                    pviews(particles@)[x],
                    pviews(particles@)[y],
                ) && pviews(particles@)[x].radius + pviews(particles@)[y].radius
                    <= grid.cell_size implies exists|k: int|
                    0 <= k < cviews(out@).len() && (#[trigger] cviews(out@)[k]).0 == x && cviews(
                        out@,
                    )[k].1 == y by {
                if x == a_done {
                    let s = grid.cell_size as int;
                    let px = pviews(particles@)[x];
                    let py = pviews(particles@)[y];
                    lemma_colliding_adjacent(px, py, s);
                    let yu = y as usize;
                    assert(grid.cell_ids(cell_of(py.pos, s)).contains(yu));
                    assert(neighbors@.contains(yu));
                    let tt = choose|tt: int| 0 <= tt < neighbors@.len() && neighbors@[tt] == yu;
                    assert(neighbors@[tt] > a_done && colliding(
                        pviews(particles@)[a_done],
                        pviews(particles@)[neighbors@[tt] as int],
                    ));
                }
            }
        }
    }
    proof {
        assert forall|k: int| 0 <= k < out@.len() implies {
            let t = (#[trigger] out@[k])@;
            &&& t.2.within(CORR_LIMIT as int)
            &&& t.0 != t.1
        } by {
            assert(cviews(out@)[k] == out@[k]@);
        }
    }
    out
}

/// The pairwise collision resolver: detect every overlapping pair through
/// the grid, then apply every recorded correction. The phase split keeps
/// detection free of mutation.
pub fn resolve_collisions(grid: &Grid, particles: &mut Vec<Particle>, damping: i64)
    requires
        grid.wf(),
        grid.ids_unique(),
        grid_matches(*grid, old(particles)@),
        forall|c: (int, int, int)| #[trigger] grid.cell_ids(c) == cell_row(
            old(particles)@,
            grid.cell_size as int,
            c,
        ),
        old(particles)@.len() <= MAX_PARTICLES,
        0 <= damping <= SCALE,
        forall|i: int|
            0 <= i < old(particles)@.len() ==> {
                let p = (#[trigger] old(particles)@[i])@;
                &&& p.boxed()
                &&& 0 < p.radius <= RADIUS_LIMIT
                &&& p.old_pos.within(BOUND_OLD_LIMIT as int)
            },
    ensures
        final(particles)@.len() == old(particles)@.len(),
        pviews(final(particles)@) == ({
            let cs = spec_detect(
                pviews(old(particles)@),
                grid.cell_size as int,
                old(particles)@.len() as int,
            );
            apply_upto(pviews(old(particles)@), cs, cs.len() as int, damping as int)
        }),
        forall|i: int|
            0 <= i < old(particles)@.len() ==> {
                let p = (#[trigger] final(particles)@[i])@;
                &&& p.pos.within(POS_LIMIT as int)
                &&& p.old_pos.within(OLD_LIMIT as int)
                &&& p.radius == old(particles)@[i]@.radius
                &&& p.acceleration == old(particles)@[i]@.acceleration
            },
{
    let collisions = detect_collisions(grid, particles);
    proof {
        let n = particles@.len() as int;
        assert(n * n <= MAX_PARTICLES * MAX_PARTICLES) by (nonlinear_arith)
            requires 0 <= n <= MAX_PARTICLES;
    }
    proof {
        lemma_detect_seq_abstract(*grid, particles@, particles@.len() as int);
    }
    apply_corrections(particles, &collisions, damping);
}

} // verus!
