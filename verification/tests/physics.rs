use verlet_box::{
    apply_corrections, build_spatial_grid, check_box_collision, detect_collisions,
    physics_substeps, resolve_collisions, verlet_integration, Collision, Grid, Particle,
    SimConfig, Vec3i,
};

fn demo_config(gravity_y: i64) -> SimConfig {
    SimConfig::new(
        Vec3i::new(0, gravity_y, 0),
        16_666,
        4,
        20_000_000,
        2_000_000,
        800_000,
        800_000,
    )
    .unwrap()
}

#[test]
fn falling_particle_follows_verlet_recurrence() {
    // dt = 1/240 s, gravity (0, -3, 0) units/s^2:
    // dt^2 scales to 17 sub-units, so each sub-step adds -51 to y.
    let start = Vec3i::new(0, 10_000_000, 0);
    let mut particles = vec![Particle::new(start, 500_000).unwrap()];
    let gravity = Vec3i::new(0, -3_000_000, 0);
    let expected = [9_999_949i64, 9_999_847, 9_999_694, 9_999_490, 9_999_235];
    let mut last_y = 10_000_000i64;
    for e in expected {
        verlet_integration(4_166, gravity, &mut particles);
        assert_eq!(particles[0].pos.y, e);
        assert!(particles[0].pos.y < last_y);
        assert_eq!(particles[0].pos.x, 0);
        assert_eq!(particles[0].pos.z, 0);
        last_y = particles[0].pos.y;
    }
}

#[test]
fn integration_is_deterministic() {
    let start = Vec3i::new(1_000_000, 10_000_000, 3_000_000);
    let gravity = Vec3i::new(0, -3_000_000, 0);
    let mut a = vec![Particle::new(start, 500_000).unwrap()];
    let mut b = vec![Particle::new(start, 500_000).unwrap()];
    for _ in 0..100 {
        verlet_integration(4_166, gravity, &mut a);
        verlet_integration(4_166, gravity, &mut b);
    }
    assert_eq!(a[0], b[0]);
}

#[test]
fn boundary_contains_corner_escape() {
    // outside the box on x (low), y (high) and z (high) at once
    let mut particles = vec![Particle {
        pos: Vec3i::new(-1_000_000, 25_000_000, 30_000_000),
        old_pos: Vec3i::new(0, 24_000_000, 30_000_000),
        acceleration: Vec3i::new(0, 0, 0),
        radius: 500_000,
    }];
    check_box_collision(&mut particles, 20_000_000, 800_000);
    let p = &particles[0];
    assert_eq!(p.pos, Vec3i::new(500_000, 19_500_000, 19_500_000));
    // previous positions rewritten so the rebound is damped to 0.8
    assert_eq!(p.old_pos, Vec3i::new(900_000, 15_900_000, 11_100_000));
    // containment on every axis
    for (pos, r) in [(p.pos.x, p.radius), (p.pos.y, p.radius), (p.pos.z, p.radius)] {
        assert!(r <= pos && pos <= 20_000_000 - r);
    }
}

#[test]
fn boundary_leaves_interior_untouched() {
    let inside = Particle {
        pos: Vec3i::new(10_000_000, 500_000, 10_000_000),
        old_pos: Vec3i::new(10_000_000, 600_000, 10_000_000),
        acceleration: Vec3i::new(0, 0, 0),
        radius: 500_000,
    };
    let mut particles = vec![inside];
    check_box_collision(&mut particles, 20_000_000, 800_000);
    assert_eq!(particles[0], inside);
}

#[test]
fn collision_separates_to_exact_contact() {
    // radii 0.5, centres 0.6 apart: overlap 0.4, split equally
    let mut particles = vec![
        Particle::new(Vec3i::new(5_000_000, 5_000_000, 5_000_000), 500_000).unwrap(),
        Particle::new(Vec3i::new(5_600_000, 5_000_000, 5_000_000), 500_000).unwrap(),
    ];
    let mut grid = Grid::new(2_000_000).unwrap();
    build_spatial_grid(&mut grid, &particles);
    let found = detect_collisions(&grid, &particles);
    assert_eq!(found.len(), 1);
    assert_eq!(found[0].a, 0);
    assert_eq!(found[0].b, 1);
    assert_eq!(found[0].corr, Vec3i::new(200_000, 0, 0));
    apply_corrections(&mut particles, &found, 800_000);
    // each centre moved by exactly half the overlap
    assert_eq!(particles[0].pos, Vec3i::new(4_800_000, 5_000_000, 5_000_000));
    assert_eq!(particles[1].pos, Vec3i::new(5_800_000, 5_000_000, 5_000_000));
    // resulting distance equals the radii sum exactly
    assert_eq!(particles[1].pos.x - particles[0].pos.x, 1_000_000);
    // previous positions absorb the damped correction
    assert_eq!(particles[0].old_pos.x, 4_840_000);
    assert_eq!(particles[1].old_pos.x, 5_760_000);
}

#[test]
fn coincident_pair_produces_no_correction() {
    let pos = Vec3i::new(5_000_000, 5_000_000, 5_000_000);
    let particles = vec![
        Particle::new(pos, 500_000).unwrap(),
        Particle::new(pos, 500_000).unwrap(),
    ];
    let mut grid = Grid::new(2_000_000).unwrap();
    build_spatial_grid(&mut grid, &particles);
    let found = detect_collisions(&grid, &particles);
    assert!(found.is_empty());
}

#[test]
fn three_way_overlap_detects_three_pairs() {
    let particles = vec![
        Particle::new(Vec3i::new(5_000_000, 5_000_000, 5_000_000), 500_000).unwrap(),
        Particle::new(Vec3i::new(5_600_000, 5_000_000, 5_000_000), 500_000).unwrap(),
        Particle::new(Vec3i::new(5_300_000, 5_500_000, 5_000_000), 500_000).unwrap(),
    ];
    let mut grid = Grid::new(2_000_000).unwrap();
    build_spatial_grid(&mut grid, &particles);
    let found = detect_collisions(&grid, &particles);
    // C(3, 2) pairs, each exactly once, never six
    assert_eq!(found.len(), 3);
    let mut pairs: Vec<(usize, usize)> = found.iter().map(|c| (c.a, c.b)).collect();
    pairs.sort();
    assert_eq!(pairs, vec![(0, 1), (0, 2), (1, 2)]);
}

#[test]
fn stale_identity_is_skipped_silently() {
    let mut particles = vec![Particle::new(Vec3i::new(5_000_000, 5_000_000, 5_000_000), 500_000)
        .unwrap()];
    let stale = vec![Collision { a: 0, b: 5, corr: Vec3i::new(100, 0, 0) }];
    apply_corrections(&mut particles, &stale, 800_000);
    // the resolvable side still moved; the stale side was ignored, no crash
    assert_eq!(particles[0].pos, Vec3i::new(4_999_900, 5_000_000, 5_000_000));
    assert_eq!(particles.len(), 1);
}

#[test]
fn resting_particle_is_a_fixed_point() {
    let cfg = demo_config(0);
    let mut grid = Grid::new(cfg.cell_size).unwrap();
    let start = Particle::new(Vec3i::new(10_000_000, 500_000, 10_000_000), 500_000).unwrap();
    let mut particles = vec![start];
    for _ in 0..5 {
        physics_substeps(&mut grid, &mut particles, &cfg);
        assert_eq!(particles[0], start);
    }
}

#[test]
fn full_tick_drops_a_particle_and_keeps_it_in_the_box() {
    let cfg = demo_config(-3_000_000);
    let mut grid = Grid::new(cfg.cell_size).unwrap();
    let mut particles = vec![
        Particle::new(Vec3i::new(10_000_000, 10_000_000, 10_000_000), 500_000).unwrap(),
        Particle::new(Vec3i::new(10_600_000, 10_000_000, 10_000_000), 500_000).unwrap(),
    ];
    let radii: Vec<i64> = particles.iter().map(|p| p.radius).collect();
    for _ in 0..600 {
        physics_substeps(&mut grid, &mut particles, &cfg);
    }
    assert_eq!(particles.len(), 2);
    for (p, r) in particles.iter().zip(radii) {
        assert_eq!(p.radius, r);
        assert!(p.pos.y < 10_000_000);
        assert!(p.pos.y >= p.radius);
    }
}

#[test]
fn resolve_collisions_matches_detect_then_apply() {
    let make = || {
        vec![
            Particle::new(Vec3i::new(5_000_000, 5_000_000, 5_000_000), 500_000).unwrap(),
            Particle::new(Vec3i::new(5_600_000, 5_000_000, 5_000_000), 500_000).unwrap(),
        ]
    };
    let mut split = make();
    let mut fused = make();
    let mut grid = Grid::new(2_000_000).unwrap();
    build_spatial_grid(&mut grid, &split);
    let found = detect_collisions(&grid, &split);
    apply_corrections(&mut split, &found, 800_000);
    build_spatial_grid(&mut grid, &fused);
    resolve_collisions(&grid, &mut fused, 800_000);
    assert_eq!(split, fused);
}

#[test]
fn empty_collection_ticks_without_effect() {
    let cfg = demo_config(-3_000_000);
    let mut grid = Grid::new(cfg.cell_size).unwrap();
    let mut particles: Vec<Particle> = Vec::new();
    physics_substeps(&mut grid, &mut particles, &cfg);
    assert!(particles.is_empty());
}

#[test]
fn single_substep_config_matches_one_integration_and_clamp() {
    // far from walls and other particles, one sub-step is integration alone
    let cfg = SimConfig::new(
        Vec3i::new(0, -3_000_000, 0),
        4_166,
        1,
        20_000_000,
        2_000_000,
        800_000,
        800_000,
    )
    .unwrap();
    let mut grid = Grid::new(cfg.cell_size).unwrap();
    let mut by_tick = vec![Particle::new(Vec3i::new(10_000_000, 10_000_000, 10_000_000), 500_000)
        .unwrap()];
    let mut by_pass = by_tick.clone();
    physics_substeps(&mut grid, &mut by_tick, &cfg);
    verlet_integration(4_166, Vec3i::new(0, -3_000_000, 0), &mut by_pass);
    check_box_collision(&mut by_pass, 20_000_000, 800_000);
    assert_eq!(by_tick, by_pass);
}
