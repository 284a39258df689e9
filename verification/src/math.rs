use vstd::prelude::*;
use vstd::arithmetic::div_mod::*;
use vstd::math::abs;

verus! {

/// One coordinate unit is split into `SCALE` sub-units; every position,
/// radius, duration and velocity in the simulation is an `i64` count of
/// sub-units (or of sub-units per second, and so on).
pub const SCALE: i64 = 1_000_000;

/// Mathematical counterpart of `Vec3i`: three unbounded integer coordinates.
pub ghost struct V3 {
    pub x: int,
    pub y: int,
    pub z: int,
}

impl V3 {
    /// Componentwise sum.
    pub open spec fn plus(self, o: V3) -> V3 {
        V3 { x: self.x + o.x, y: self.y + o.y, z: self.z + o.z }
    }

    /// Componentwise difference.
    pub open spec fn minus(self, o: V3) -> V3 {
        V3 { x: self.x - o.x, y: self.y - o.y, z: self.z - o.z }
    }

    /// Every coordinate has magnitude at most `m`.
    pub open spec fn within(self, m: int) -> bool {
        abs(self.x) <= m && abs(self.y) <= m && abs(self.z) <= m
    }
}

/// A point or displacement in three-dimensional space, in sub-units.
#[derive(Clone, Copy, Debug, PartialEq, Eq, Structural)]
pub struct Vec3i {
    pub x: i64,
    pub y: i64,
    pub z: i64,
}

impl View for Vec3i {
    type V = V3;

    open spec fn view(&self) -> V3 {
        V3 { x: self.x as int, y: self.y as int, z: self.z as int }
    }
}

impl Vec3i {
    pub fn new(x: i64, y: i64, z: i64) -> (r: Vec3i)
        ensures
            r@ == (V3 { x: x as int, y: y as int, z: z as int }),
    {
        Vec3i { x, y, z }
    }

    /// The origin, also used as the zero displacement.
    pub fn zero() -> (r: Vec3i)
        ensures
            r@ == (V3 { x: 0int, y: 0int, z: 0int }),
    {
        Vec3i { x: 0, y: 0, z: 0 }
    }
}

/// Division rounding toward zero, as Rust's `/` on machine integers does;
/// meaningful for `b > 0`.
pub open spec fn tdiv(a: int, b: int) -> int {
    if a >= 0 {
        a / b
    } else {
        -((-a) / b)
    }
}

/// The fixed-point product: `a * b` rescaled back into sub-units.
pub open spec fn fx_mul(a: int, b: int) -> int {
    tdiv(a * b, SCALE as int)
}

/// A velocity component damped by the factor `d / SCALE`.
pub open spec fn damp(v: int, d: int) -> int {
    tdiv(v * d, SCALE as int)
}

/// Truncating division stays within any bound `c` that covers the quotient:
/// if `|a| <= c * b` then `|tdiv(a, b)| <= c`.
pub proof fn lemma_tdiv_le(a: int, b: int, c: int)
    requires
        b >= 1,
        c >= 0,
        -(c * b) <= a <= c * b,
    ensures
        -c <= tdiv(a, b) <= c,
        a >= 0 ==> tdiv(a, b) >= 0,
        a < 0 ==> tdiv(a, b) <= 0,
{
    if a >= 0 {
        lemma_div_pos_is_pos(a, b);
        lemma_div_is_ordered(a, c * b, b);
        lemma_div_by_multiple(c, b);
    } else {
        lemma_div_pos_is_pos(-a, b);
        lemma_div_is_ordered(-a, c * b, b);
        lemma_div_by_multiple(c, b);
    }
}

/// A damped component never grows in magnitude while the factor is at most `SCALE`.
pub proof fn lemma_damp_le(v: int, d: int)
    requires
        0 <= d <= SCALE,
    ensures
        -abs(v) <= damp(v, d) <= abs(v),
        v >= 0 && d >= 0 ==> damp(v, d) >= 0,
        v <= 0 && d >= 0 ==> damp(v, d) <= 0,
{
    let s = SCALE as int;
    assert(-(abs(v) * s) <= v * d <= abs(v) * s) by (nonlinear_arith)
        requires 0 <= d <= s;
    lemma_tdiv_le(v * d, s, abs(v) as int);
    assert(v >= 0 ==> v * d >= 0) by (nonlinear_arith)
        requires d >= 0;
    assert(v <= 0 ==> v * d <= 0) by (nonlinear_arith)
        requires d >= 0;
    if v * d == 0 {
        assert(tdiv(0, s) == 0) by {
            lemma_div_of0(s);
        }
    }
}

/// Division rounding toward zero; `a / b` as Rust computes it on `i64`.
pub fn div_trunc(a: i64, b: i64) -> (r: i64)
    requires
        b >= 1,
        a > i64::MIN,
    ensures
        r == tdiv(a as int, b as int),
{
    if a >= 0 {
        let q: u64 = (a as u64) / (b as u64);
        proof {
            lemma_div_nonincreasing(a as int, b as int);
            lemma_div_pos_is_pos(a as int, b as int);
        }
        q as i64
    } else {
        let na: u64 = (-a) as u64;
        let q: u64 = na / (b as u64);
        proof {
            lemma_div_nonincreasing(na as int, b as int);
            lemma_div_pos_is_pos(na as int, b as int);
        }
        -(q as i64)
    }
}

/// Division rounding toward negative infinity (the mathematical floor);
/// for non-negative `a` it agrees with `div_trunc`.
pub fn div_floor(a: i64, b: i64) -> (r: i64)
    requires
        b >= 1,
        a > i64::MIN,
    ensures
        r == a as int / b as int,
{
    if a >= 0 {
        let q: u64 = (a as u64) / (b as u64);
        proof {
            lemma_div_nonincreasing(a as int, b as int);
            lemma_div_pos_is_pos(a as int, b as int);
        }
        q as i64
    } else {
        let na: u64 = (-a) as u64;
        let q: u64 = (na + (b as u64) - 1) / (b as u64);
        proof {
            let ai = a as int;
            let bi = b as int;
            let q0 = ai / bi;
            let r0 = ai % bi;
            lemma_fundamental_div_mod(ai, bi);
            lemma_mod_division_less_than_divisor(ai, bi);
            assert(ai == bi * q0 + r0);
            assert(0 <= r0 < bi);
            // -a + b - 1 leaves quotient -q0 with remainder b - 1 - r0.
            assert(na as int + bi - 1 == (-q0) * bi + (bi - 1 - r0)) by (nonlinear_arith)
                requires na as int == -ai, ai == bi * q0 + r0;
            lemma_fundamental_div_mod_converse_div(na as int + bi - 1, bi, -q0, bi - 1 - r0);
            // bound the unsigned quotient so the casts below stay in range
            assert(-q0 <= na as int) by (nonlinear_arith)
                requires na as int >= 1, bi >= 1, 0 <= r0 < bi, na as int == (-q0) * bi - r0;
        }
        -(q as i64)
    }
}

/// The damped component `v * d / SCALE`, rounded toward zero; the product
/// is taken wide, so any `i64` velocity component is accepted.
pub fn damp_exec(v: i64, d: i64) -> (r: i64)
    requires
        0 <= d <= SCALE,
        v > i64::MIN,
    ensures
        r == damp(v as int, d as int),
        -abs(v as int) <= r <= abs(v as int),
{
    proof {
        lemma_damp_le(v as int, d as int);
        lemma_div_of0(SCALE as int);
    }
    if v >= 0 {
        proof {
            assert((v as int) * (d as int) <= 0xFFFF_FFFF_FFFF_FFFF * 0x10_0000)
                by (nonlinear_arith)
                requires 0 <= v as int <= 0xFFFF_FFFF_FFFF_FFFF, 0 <= d as int <= 0x10_0000;
        }
        let q: u128 = ((v as u128) * (d as u128)) / (SCALE as u128);
        q as i64
    } else {
        let nv: u128 = (-v) as u128;
        proof {
            assert((nv as int) * (d as int) <= 0xFFFF_FFFF_FFFF_FFFF * 0x10_0000)
                by (nonlinear_arith)
                requires 0 <= nv as int <= 0xFFFF_FFFF_FFFF_FFFF, 0 <= d as int <= 0x10_0000;
            assert(nv as int * (d as int) == -((v as int) * (d as int))) by (nonlinear_arith)
                requires nv as int == -(v as int);
        }
        let q: u128 = (nv * (d as u128)) / (SCALE as u128);
        -(q as i64)
    }
}

/// `r` is the integer square root of `n` exactly when `r^2 <= n < (r+1)^2`.
pub open spec fn is_isqrt(n: int, r: int) -> bool {
    r >= 0 && r * r <= n && n < (r + 1) * (r + 1)
}

/// The integer square root as a mathematical value.
pub open spec fn isqrt_s(n: int) -> int {
    choose|r: int| is_isqrt(n, r)
}

/// Two integer square roots of the same number coincide.
pub proof fn lemma_isqrt_unique(n: int, r1: int, r2: int)
    requires
        is_isqrt(n, r1),
        is_isqrt(n, r2),
    ensures
        r1 == r2,
{
    assert(r1 < r2 ==> (r1 + 1) * (r1 + 1) <= r2 * r2) by (nonlinear_arith)
        requires r1 >= 0, r2 >= 0;
    assert(r2 < r1 ==> (r2 + 1) * (r2 + 1) <= r1 * r1) by (nonlinear_arith)
        requires r1 >= 0, r2 >= 0;
}

/// Any value whose square is bounded by `n` is bounded by the root itself.
pub proof fn lemma_isqrt_dominates(n: int, r: int, a: int)
    requires
        is_isqrt(n, r),
        a * a <= n,
    ensures
        -r <= a <= r,
{
    assert(a > r ==> (r + 1) * (r + 1) <= a * a) by (nonlinear_arith)
        requires r >= 0;
    assert(a < -r ==> (r + 1) * (r + 1) <= a * a) by (nonlinear_arith)
        requires r >= 0;
}

/// The integer square root, by bisection.
pub fn isqrt(n: u64) -> (r: u64)
    ensures
        is_isqrt(n as int, r as int),
        r == isqrt_s(n as int),
{
    let mut lo: u64 = 0;
    let mut hi: u64 = 0x1_0000_0000;
    assert((n as int) < 0x1_0000_0000int * 0x1_0000_0000int) by (nonlinear_arith)
        requires n <= 0xFFFF_FFFF_FFFF_FFFFu64;
    while lo + 1 < hi
        invariant
            lo < hi <= 0x1_0000_0000u64,
            (lo as int) * (lo as int) <= n as int,
            (n as int) < (hi as int) * (hi as int),
        decreases hi - lo,
    {
        let mid: u64 = (lo + hi) / 2;
        proof {
            lemma_div_is_ordered(2 * (lo as int) + 2, lo as int + hi as int, 2);
            lemma_div_by_multiple(lo as int + 1, 2);
            lemma_div_is_ordered(lo as int + hi as int, 2 * (hi as int) - 2, 2);
            lemma_div_by_multiple(hi as int - 1, 2);
            assert(mid * mid < 0xFFFF_FFFF_FFFF_FFFFu64) by (nonlinear_arith)
                requires mid <= 0xFFFF_FFFFu64;
        }
        if mid * mid <= n {
            lo = mid;
        } else {
            hi = mid;
        }
    }
    proof {
        assert(exists|r: int| is_isqrt(n as int, r)) by {
            assert(is_isqrt(n as int, lo as int));
        }
        lemma_isqrt_unique(n as int, lo as int, isqrt_s(n as int));
    }
    lo
}

} // verus!
