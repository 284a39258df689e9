use verlet_box::{build_spatial_grid, Grid, Particle, Vec3i};

fn grid2() -> Grid {
    Grid::new(2_000_000).unwrap()
}

#[test]
fn get_cell_floors_toward_negative_infinity() {
    let g = grid2();
    let c = g.get_cell(Vec3i::new(3_500_000, 1_000_000, -1_000_000));
    assert_eq!((c.x, c.y, c.z), (1, 0, -1));
    let c = g.get_cell(Vec3i::new(0, 1_999_999, 2_000_000));
    assert_eq!((c.x, c.y, c.z), (0, 0, 1));
}

#[test]
fn neighbors_of_lone_particle_is_only_itself() {
    let mut g = grid2();
    let pos = Vec3i::new(5_000_000, 5_000_000, 5_000_000);
    g.insert(pos, 0);
    let near = g.get_neighbors(pos);
    assert_eq!(near, vec![0]);
}

#[test]
fn neighbors_cover_the_adjacent_block_and_no_more() {
    let mut g = grid2();
    let home = Vec3i::new(5_000_000, 5_000_000, 5_000_000);
    // same cell
    g.insert(Vec3i::new(4_100_000, 5_900_000, 5_500_000), 1);
    // one cell step away on x
    g.insert(Vec3i::new(7_900_000, 5_000_000, 5_000_000), 2);
    // a corner neighbour
    g.insert(Vec3i::new(3_900_000, 3_900_000, 3_900_000), 3);
    // two cell steps away on x: outside the block
    g.insert(Vec3i::new(9_000_000, 5_000_000, 5_000_000), 4);
    g.insert(home, 0);
    let near = g.get_neighbors(home);
    assert_eq!(near.len(), 4);
    assert!(near.contains(&0));
    assert!(near.contains(&1));
    assert!(near.contains(&2));
    assert!(near.contains(&3));
    assert!(!near.contains(&4));
}

#[test]
fn same_cell_keeps_insertion_order() {
    let mut g = grid2();
    let pos = Vec3i::new(1_000_000, 1_000_000, 1_000_000);
    g.insert(pos, 5);
    g.insert(pos, 7);
    g.insert(Vec3i::new(1_500_000, 1_000_000, 1_000_000), 9);
    let near = g.get_neighbors(pos);
    assert_eq!(near, vec![5, 7, 9]);
}

#[test]
fn clear_empties_every_cell() {
    let mut g = grid2();
    g.insert(Vec3i::new(1_000_000, 0, 0), 0);
    g.insert(Vec3i::new(5_000_000, 0, 0), 1);
    g.clear();
    assert!(g.get_neighbors(Vec3i::new(1_000_000, 0, 0)).is_empty());
}

#[test]
fn build_spatial_grid_indexes_every_particle_once() {
    let mut g = grid2();
    // leftovers from an earlier sub-step are discarded by the rebuild
    g.insert(Vec3i::new(1_000_000, 0, 0), 17);
    let particles = vec![
        Particle::new(Vec3i::new(5_000_000, 5_000_000, 5_000_000), 500_000).unwrap(),
        Particle::new(Vec3i::new(5_600_000, 5_000_000, 5_000_000), 500_000).unwrap(),
        Particle::new(Vec3i::new(15_000_000, 5_000_000, 5_000_000), 500_000).unwrap(),
    ];
    build_spatial_grid(&mut g, &particles);
    let near = g.get_neighbors(Vec3i::new(5_000_000, 5_000_000, 5_000_000));
    assert_eq!(near.len(), 2);
    assert!(near.contains(&0));
    assert!(near.contains(&1));
    assert!(!near.contains(&17));
}
