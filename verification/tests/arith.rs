use verlet_box::math::{damp_exec, div_floor, div_trunc, isqrt};

#[test]
fn isqrt_small_values() {
    assert_eq!(isqrt(0), 0);
    assert_eq!(isqrt(1), 1);
    assert_eq!(isqrt(2), 1);
    assert_eq!(isqrt(3), 1);
    assert_eq!(isqrt(4), 2);
    assert_eq!(isqrt(8), 2);
    assert_eq!(isqrt(9), 3);
}

#[test]
fn isqrt_exact_roots() {
    assert_eq!(isqrt(100_000_000), 10_000);
    assert_eq!(isqrt(360_000_000_000), 600_000);
    assert_eq!(isqrt(1_000_000_000_000), 1_000_000);
}

#[test]
fn isqrt_large_values() {
    assert_eq!(isqrt(u64::MAX), 0xFFFF_FFFF);
    assert_eq!(isqrt(6_750_000_000_000_000_000), 2_598_076_211);
}

#[test]
fn division_rounds_toward_zero() {
    assert_eq!(div_trunc(7, 2), 3);
    assert_eq!(div_trunc(-7, 2), -3);
    assert_eq!(div_trunc(6, 3), 2);
    assert_eq!(div_trunc(-6, 3), -2);
}

#[test]
fn division_rounds_toward_negative_infinity() {
    assert_eq!(div_floor(7, 2), 3);
    assert_eq!(div_floor(-7, 2), -4);
    assert_eq!(div_floor(-6, 3), -2);
    assert_eq!(div_floor(-1, 2_000_000), -1);
}

#[test]
fn damping_scales_velocity() {
    // 0.8 of 10 sub-units, rounded toward zero
    assert_eq!(damp_exec(10, 800_000), 8);
    assert_eq!(damp_exec(-10, 800_000), -8);
    // 0.5 of 7 truncates to 3
    assert_eq!(damp_exec(7, 500_000), 3);
    assert_eq!(damp_exec(-7, 500_000), -3);
    assert_eq!(damp_exec(123_456, 0), 0);
    assert_eq!(damp_exec(123_456, 1_000_000), 123_456);
}
