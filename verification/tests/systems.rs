use noiter::camera::zoom;
use noiter::cell_gravity::SECTIONS;
use noiter::chunk::Chunk;
use noiter::chunk_map::{ChunkMap, ChunkMapModified, FullIndex, VoxelChunkMap};
use noiter::simulate_world::WorldRand;
use noiter::collider_world::ColliderUpdate;
use noiter::matrix::{MatrixBounded, MatrixBoundedIterMut, MatrixIndex};
use noiter::pointer::{brush_kind, diagnostic_name};
use noiter::shapes::circle::Circle;
use noiter::world_image::{write_data, WorldImage};

fn ids_with(fill: u16, marks: &[(u8, u8, u16)]) -> Vec<u16> {
    let mut ids = vec![fill; 65536];
    for &(x, y, id) in marks {
        ids[y as usize * 256 + x as usize] = id;
    }
    ids
}

fn at(chunk: MatrixIndex, x: u8, y: u8) -> FullIndex {
    FullIndex { cell_index: MatrixIndex { x, y }, chunk_index: chunk }
}

fn id_at(world: &ChunkMap, i: FullIndex) -> Option<u16> {
    world.get(i).map(|c| c.id)
}

#[test]
fn gravity_moves_liquid_down_and_gas_up() {
    let c = MatrixIndex { x: 3, y: 3 };
    let mut world = ChunkMap::new();
    let mut voxels = VoxelChunkMap::new();
    world.insert(&mut voxels, c, Chunk::new(&ids_with(0, &[(5, 5, 2), (9, 9, 3), (7, 7, 9)])));
    assert_eq!(world.gravity_cell(&mut voxels, c, MatrixIndex { x: 5, y: 5 }), Some(at(c, 5, 4)));
    assert_eq!(id_at(&world, at(c, 5, 4)), Some(2));
    assert_eq!(world.gravity_cell(&mut voxels, c, MatrixIndex { x: 9, y: 9 }), Some(at(c, 9, 10)));
    assert_eq!(id_at(&world, at(c, 9, 10)), Some(3));
    assert_eq!(world.gravity_cell(&mut voxels, c, MatrixIndex { x: 7, y: 7 }), None);
    assert_eq!(id_at(&world, at(c, 7, 7)), Some(9));
}

#[test]
fn gravity_stops_on_solid_ground() {
    let c = MatrixIndex { x: 3, y: 3 };
    let mut world = ChunkMap::new();
    let mut voxels = VoxelChunkMap::new();
    world.insert(&mut voxels, c, Chunk::new(&ids_with(0, &[(5, 5, 2), (5, 4, 6)])));
    assert_eq!(world.gravity_cell(&mut voxels, c, MatrixIndex { x: 5, y: 5 }), None);
    assert_eq!(id_at(&world, at(c, 5, 5)), Some(2));
}

#[test]
fn gravity_crosses_into_the_paired_chunk() {
    let c = MatrixIndex { x: 3, y: 3 };
    let d = MatrixIndex { x: 3, y: 4 };
    let mut world = ChunkMap::new();
    let mut voxels = VoxelChunkMap::new();
    world.insert(&mut voxels, c, Chunk::new(&ids_with(0, &[(5, 0, 2)])));
    assert_eq!(world.gravity_cell(&mut voxels, c, MatrixIndex { x: 5, y: 0 }), None);
    world.insert(&mut voxels, d, Chunk::new(&ids_with(0, &[])));
    assert_eq!(world.gravity_cell(&mut voxels, c, MatrixIndex { x: 5, y: 0 }), Some(at(d, 5, 255)));
    assert_eq!(id_at(&world, at(d, 5, 255)), Some(2));
}

#[test]
fn gravity_pass_walks_the_sections() {
    let c = MatrixIndex { x: 3, y: 3 };
    let mut world = ChunkMap::new();
    let mut voxels = VoxelChunkMap::new();
    world.insert(&mut voxels, c, Chunk::new(&ids_with(0, &[(5, 5, 2)])));
    voxels.update_colliders();
    let mut num = 0;
    world.cell_gravity(&mut voxels, &mut num);
    assert_eq!(num, 1);
    assert_eq!(id_at(&world, at(c, 5, 4)), Some(2));
    assert!(voxels.chunks.index(c).as_ref().unwrap().voxels_modified);
    let mut num = SECTIONS;
    world.cell_gravity(&mut voxels, &mut num);
    assert_eq!(num, 1);
    assert_eq!(id_at(&world, at(c, 5, 3)), Some(2));
}

#[test]
fn collider_updates_follow_the_marks() {
    let mut world = ChunkMap::new();
    let mut voxels = VoxelChunkMap::new();
    let a = MatrixIndex { x: 1, y: 1 };
    let b = MatrixIndex { x: 2, y: 1 };
    world.insert(&mut voxels, a, Chunk::new(&ids_with(0, &[])));
    world.insert(&mut voxels, b, Chunk::new(&ids_with(0, &[(1, 1, 6)])));
    let plan = voxels.update_colliders();
    assert_eq!(
        plan,
        vec![ColliderUpdate::Remove { index: a, old: None }, ColliderUpdate::Rebuild { index: b }]
    );
    assert_eq!(voxels.set_collider(b, 42), None);
    assert_eq!(voxels.set_collider(b, 43), Some(42));
    assert_eq!(voxels.update_colliders(), vec![]);
    world.set(&mut voxels, at(b, 1, 1), 0);
    assert_eq!(voxels.update_colliders(), vec![ColliderUpdate::Remove { index: b, old: Some(43) }]);
    assert_eq!(voxels.chunks.index(b).as_ref().unwrap().collider, None);
}

#[test]
fn world_image_sizes() {
    let mut image = WorldImage::default();
    image.resize(800, 600, 4);
    assert_eq!((image.width, image.height), (202, 152));
    image.resize(801, 5, 4);
    assert_eq!((image.width, image.height), (204, 4));
}

#[test]
fn world_image_rows_run_top_down() {
    let c = MatrixIndex { x: 1, y: 1 };
    let mut world = ChunkMap::new();
    let mut voxels = VoxelChunkMap::new();
    world.insert(&mut voxels, c, Chunk::new(&ids_with(0, &[(10, 11, 9), (11, 10, 2)])));
    let mut data = vec![7u8; 4 * 4 + 3];
    write_data(&world, &mut data, 256 + 11, 256 + 11, 2, 2);
    assert_eq!(&data[0..4], &[0xcb, 0xbd, 0x93, 0xff]);
    assert_eq!(&data[4..8], &[0, 0, 0, 0]);
    assert_eq!(&data[8..12], &[0, 0, 0, 0]);
    assert_eq!(&data[12..16], &[0x2f, 0x8f, 0xff, 0xff]);
    assert_eq!(&data[16..], &[7, 7, 7]);
    let mut short = vec![9u8; 6];
    write_data(&world, &mut short, 0x8000, 0x8000, 4, 4);
    assert_eq!(short, vec![0, 0, 0, 0, 9, 9]);
}

#[test]
fn brush_kinds() {
    assert_eq!(brush_kind(true, false, false), 9);
    assert_eq!(brush_kind(true, true, true), 6);
    assert_eq!(brush_kind(false, true, false), 3);
    assert_eq!(brush_kind(false, false, false), 2);
}

#[test]
fn spawn_cells_paints_a_disc() {
    let c = MatrixIndex { x: 1, y: 1 };
    let mut world = ChunkMap::new();
    let mut voxels = VoxelChunkMap::new();
    world.insert(&mut voxels, c, Chunk::new(&ids_with(0, &[])));
    world.spawn_cells(&mut voxels, 256 + 100, 256 + 100, 6);
    let points = Circle::new(356, 356, 8).points();
    assert!(!points.is_empty());
    for (x, y) in &points {
        assert_eq!(id_at(&world, FullIndex::from((*x, *y))), Some(6));
    }
    assert_eq!(id_at(&world, at(c, 100, 100)), Some(6));
    assert_eq!(id_at(&world, at(c, 100, 109)), Some(0));
    let painted = (0..=255u8)
        .flat_map(|y| (0..=255u8).map(move |x| (x, y)))
        .filter(|&(x, y)| id_at(&world, at(c, x, y)) == Some(6))
        .count();
    assert_eq!(voxels.chunks.index(c).as_ref().unwrap().voxels, painted);
}

#[test]
fn zoom_steps() {
    assert_eq!(zoom(4, true, false), Some(3));
    assert_eq!(zoom(2, true, false), None);
    assert_eq!(zoom(4, false, true), Some(5));
    assert_eq!(zoom(4, true, true), None);
    assert_eq!(zoom(4, false, false), None);
}

#[test]
fn box_walk_visits_rows_in_order() {
    let mut m: MatrixBounded<u8> = MatrixBounded::default();
    m.insert(MatrixIndex { x: 3, y: 4 }, 1);
    m.insert(MatrixIndex { x: 4, y: 5 }, 2);
    let mut walk = MatrixBoundedIterMut::new(m.min_elem, m.max_elem);
    let mut seen = Vec::new();
    while let Some(i) = walk.next() {
        seen.push(i);
    }
    assert_eq!(
        seen,
        vec![
            MatrixIndex { x: 3, y: 4 },
            MatrixIndex { x: 4, y: 4 },
            MatrixIndex { x: 3, y: 5 },
            MatrixIndex { x: 4, y: 5 }
        ]
    );
    assert_eq!(m.iter_opt_mut(), vec![MatrixIndex { x: 3, y: 4 }, MatrixIndex { x: 4, y: 5 }]);
    for i in m.iter_opt_mut() {
        *m.get_mut(i).unwrap() += 10;
    }
    assert_eq!(*m.index(MatrixIndex { x: 4, y: 5 }), Some(12));
    let empty: MatrixBounded<u8> = MatrixBounded::default();
    assert_eq!(MatrixBoundedIterMut::new(empty.min_elem, empty.max_elem).next(), None);
    assert_eq!(m.iter_mut(), vec![MatrixIndex { x: 3, y: 4 }, MatrixIndex { x: 4, y: 5 }]);
    assert_eq!(empty.iter_mut(), vec![]);
}

#[test]
fn nearby_pass_moves_sand_down_one_cell() {
    let c = MatrixIndex { x: 1, y: 1 };
    let mut world = ChunkMap::new();
    let mut voxels = VoxelChunkMap::new();
    world.insert(&mut voxels, c, Chunk::new(&ids_with(0, &[(10, 100, 9), (20, 100, 6)])));
    let mut modified = ChunkMapModified { visual_modified: false };
    let mut rand = WorldRand::default();
    world.simulate_cell_nearby(&mut voxels, at(c, 10, 100), &mut modified, 1, &mut rand);
    assert_eq!(id_at(&world, at(c, 10, 99)), Some(9));
    assert_eq!(id_at(&world, at(c, 10, 100)), Some(0));
    assert!(modified.visual_modified);
    let mut modified = ChunkMapModified { visual_modified: false };
    world.simulate_cell_nearby(&mut voxels, at(c, 20, 100), &mut modified, 1, &mut rand);
    assert_eq!(id_at(&world, at(c, 20, 100)), Some(6));
    assert!(!modified.visual_modified);
    assert_eq!(world.get(at(c, 20, 100)).unwrap().last_changed, 1);
}

#[test]
fn nearby_try_swap_needs_a_fluid_target() {
    let c = MatrixIndex { x: 1, y: 1 };
    let mut world = ChunkMap::new();
    let mut voxels = VoxelChunkMap::new();
    world.insert(&mut voxels, c, Chunk::new(&ids_with(0, &[(5, 5, 2), (5, 4, 9)])));
    assert!(!world.try_swap_nearby(&mut voxels, at(c, 5, 5), at(c, 5, 4)));
    assert!(world.try_swap_nearby(&mut voxels, at(c, 5, 4), at(c, 5, 5)));
    assert_eq!(id_at(&world, at(c, 5, 5)), Some(9));
    assert!(!world.try_swap_nearby(&mut voxels, at(c, 5, 5), at(MatrixIndex { x: 9, y: 9 }, 0, 0)));
}

#[test]
fn nearby_chunk_pass_and_timed_pass_keep_chunks() {
    let c = MatrixIndex { x: 1, y: 1 };
    let mut world = ChunkMap::new();
    let mut voxels = VoxelChunkMap::new();
    world.insert(&mut voxels, c, Chunk::new(&ids_with(0, &[(10, 100, 9)])));
    let mut modified = ChunkMapModified { visual_modified: false };
    let mut rand = WorldRand::default();
    world.simulate_chunk_nearby(&mut voxels, c, &mut modified, 1, &mut rand);
    assert_eq!(id_at(&world, at(c, 10, 99)), Some(9));
    let mut first_chunk = 0;
    world.simulate_nearby::<4096>(&mut voxels, &mut modified, 2, &mut first_chunk);
    assert!(world.index(c).is_some());
    assert_eq!(voxels.chunks.index(c).as_ref().unwrap().voxels, 1);
}

#[test]
fn nearby_pass_with_time_to_spare_goes_round_to_the_skipped_chunks() {
    for start in [1usize, 5] {
        let a = MatrixIndex { x: 1, y: 1 };
        let b = MatrixIndex { x: 2, y: 1 };
        let mut world = ChunkMap::new();
        let mut voxels = VoxelChunkMap::new();
        world.insert(&mut voxels, a, Chunk::new(&ids_with(0, &[(10, 100, 9)])));
        world.insert(&mut voxels, b, Chunk::new(&ids_with(0, &[(10, 100, 9)])));
        let mut modified = ChunkMapModified { visual_modified: false };
        let mut first_chunk = start;
        world.simulate_nearby::<{ u128::MAX }>(&mut voxels, &mut modified, 1, &mut first_chunk);
        assert_eq!(first_chunk, 0);
        assert_eq!(id_at(&world, at(a, 10, 99)), Some(9));
        assert_eq!(id_at(&world, at(b, 10, 99)), Some(9));
    }
}

#[test]
fn nearby_pass_moves_into_fluids_of_another_kind_only() {
    let c = MatrixIndex { x: 1, y: 1 };
    let mut world = ChunkMap::new();
    let mut voxels = VoxelChunkMap::new();
    world.insert(&mut voxels, c, Chunk::new(&ids_with(0, &[(5, 5, 3), (5, 4, 2), (7, 5, 9), (7, 4, 1), (8, 5, 2), (8, 4, 2)])));
    assert!(world.try_swap_nearby(&mut voxels, at(c, 5, 5), at(c, 5, 4)));
    assert_eq!(id_at(&world, at(c, 5, 4)), Some(3));
    assert!(!world.try_swap_nearby(&mut voxels, at(c, 7, 5), at(c, 7, 4)));
    assert!(!world.try_swap_nearby(&mut voxels, at(c, 8, 5), at(c, 8, 4)));
}

#[test]
fn nearby_pass_runs_on_border_chunks_without_moving_cells_at_the_edge() {
    let edge = MatrixIndex { x: 0, y: 3 };
    let top = MatrixIndex { x: 4, y: 255 };
    let mut world = ChunkMap::new();
    let mut voxels = VoxelChunkMap::new();
    world.insert(&mut voxels, edge, Chunk::new(&ids_with(0, &[(0, 10, 6), (5, 10, 9)])));
    world.insert(&mut voxels, top, Chunk::new(&ids_with(0, &[(7, 255, 2)])));
    let mut modified = ChunkMapModified { visual_modified: false };
    let mut first_chunk = 0;
    world.simulate_nearby::<{ u128::MAX }>(&mut voxels, &mut modified, 1, &mut first_chunk);
    assert_eq!(id_at(&world, at(edge, 0, 10)), Some(6));
    assert_eq!(id_at(&world, at(edge, 5, 9)), Some(9));
    assert_eq!(id_at(&world, at(top, 7, 254)), Some(2));
    let mut rand = WorldRand::default();
    let gas = MatrixIndex { x: 0, y: 4 };
    world.insert(&mut voxels, gas, Chunk::new(&ids_with(0, &[(0, 20, 3)])));
    for _ in 0..20 {
        world.simulate_cell_nearby(&mut voxels, at(gas, 0, 20), &mut modified, 2, &mut rand);
    }
}

#[test]
fn diagnostic_names_the_kind_under_the_pointer_with_control() {
    let c = MatrixIndex { x: 2, y: 3 };
    let mut world = ChunkMap::new();
    let mut voxels = VoxelChunkMap::new();
    world.insert(&mut voxels, c, Chunk::new(&ids_with(2, &[(7, 8, 9)])));
    assert_eq!(diagnostic_name(&world, at(c, 7, 8), true), Some("sand"));
    assert_eq!(diagnostic_name(&world, at(c, 1, 1), true), Some("water"));
    assert_eq!(diagnostic_name(&world, at(c, 7, 8), false), None);
    assert_eq!(diagnostic_name(&world, at(MatrixIndex { x: 9, y: 9 }, 7, 8), true), None);
}
