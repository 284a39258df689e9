use verlet_box::{ConfigError, Grid, Particle, SimConfig, Vec3i, SCALE};

#[test]
fn particle_new_initial_state() {
    let pos = Vec3i::new(1_000_000, 2_000_000, 3_000_000);
    let p = Particle::new(pos, 500_000).unwrap();
    assert_eq!(p.pos, pos);
    assert_eq!(p.old_pos, pos);
    assert_eq!(p.acceleration, Vec3i::new(0, 0, 0));
    assert_eq!(p.radius, 500_000);
}

#[test]
fn particle_new_rejects_degenerate_radius() {
    let pos = Vec3i::new(0, 0, 0);
    assert_eq!(Particle::new(pos, 0).unwrap_err(), ConfigError::Radius);
    assert_eq!(Particle::new(pos, -500_000).unwrap_err(), ConfigError::Radius);
    assert_eq!(Particle::new(pos, i64::MAX).unwrap_err(), ConfigError::Radius);
}

#[test]
fn particle_new_rejects_far_position() {
    let far = Vec3i::new(i64::MAX, 0, 0);
    assert_eq!(Particle::new(far, 500_000).unwrap_err(), ConfigError::Position);
}

#[test]
fn grid_new_rejects_degenerate_cell() {
    assert_eq!(Grid::new(0).unwrap_err(), ConfigError::CellSize);
    assert_eq!(Grid::new(-2_000_000).unwrap_err(), ConfigError::CellSize);
    assert!(Grid::new(2_000_000).is_ok());
}

fn good_config() -> Result<SimConfig, ConfigError> {
    SimConfig::new(
        Vec3i::new(0, -3_000_000, 0),
        16_666,
        4,
        20_000_000,
        2_000_000,
        800_000,
        800_000,
    )
}

#[test]
fn config_accepts_demo_values() {
    let cfg = good_config().unwrap();
    assert_eq!(cfg.tick_dt, 16_666);
    assert_eq!(cfg.substeps, 4);
    assert_eq!(cfg.box_size, 20_000_000);
    assert_eq!(cfg.cell_size, 2_000_000);
    assert_eq!(cfg.boundary_damping, 800_000);
    assert_eq!(cfg.collision_damping, 800_000);
}

#[test]
fn config_rejects_each_degenerate_field() {
    let g = Vec3i::new(0, -3_000_000, 0);
    let e = SimConfig::new(Vec3i::new(0, -2_000_000_000, 0), 16_666, 4, 20_000_000, 2_000_000, 800_000, 800_000);
    assert_eq!(e.unwrap_err(), ConfigError::Gravity);
    let e = SimConfig::new(g, 0, 4, 20_000_000, 2_000_000, 800_000, 800_000);
    assert_eq!(e.unwrap_err(), ConfigError::TimeStep);
    let e = SimConfig::new(g, -5, 4, 20_000_000, 2_000_000, 800_000, 800_000);
    assert_eq!(e.unwrap_err(), ConfigError::TimeStep);
    let e = SimConfig::new(g, 16_666, 0, 20_000_000, 2_000_000, 800_000, 800_000);
    assert_eq!(e.unwrap_err(), ConfigError::Substeps);
    let e = SimConfig::new(g, 16_666, 100_000, 20_000_000, 2_000_000, 800_000, 800_000);
    assert_eq!(e.unwrap_err(), ConfigError::Substeps);
    let e = SimConfig::new(g, 16_666, 4, 0, 2_000_000, 800_000, 800_000);
    assert_eq!(e.unwrap_err(), ConfigError::BoxSize);
    let e = SimConfig::new(g, 16_666, 4, 20_000_000, -1, 800_000, 800_000);
    assert_eq!(e.unwrap_err(), ConfigError::CellSize);
    let e = SimConfig::new(g, 16_666, 4, 20_000_000, 2_000_000, SCALE + 1, 800_000);
    assert_eq!(e.unwrap_err(), ConfigError::Damping);
    let e = SimConfig::new(g, 16_666, 4, 20_000_000, 2_000_000, 800_000, -1);
    assert_eq!(e.unwrap_err(), ConfigError::Damping);
}
