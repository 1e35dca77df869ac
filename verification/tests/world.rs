use noiter::cell::{Cell, CellColor, CellType};
use noiter::chunk::Chunk;
use noiter::chunk_map::{ChunkMap, FullIndex, VoxelChunkMap};
use noiter::matrix::{Matrix, MatrixBounded, MatrixIndex};
use noiter::simulate_world::{directions, Direction, WorldRand, TIME_PER_CHUNK};
use noiter::uninit_cell_map::CellMap;

fn ids_with(fill: u16, marks: &[(u8, u8, u16)]) -> Vec<u16> {
    let mut ids = vec![fill; 65536];
    for &(x, y, id) in marks {
        ids[y as usize * 256 + x as usize] = id;
    }
    ids
}

fn world_with(chunk: MatrixIndex, ids: &Vec<u16>) -> (ChunkMap, VoxelChunkMap) {
    let mut world = ChunkMap::new();
    let mut voxels = VoxelChunkMap::new();
    world.insert(&mut voxels, chunk, Chunk::new(ids));
    (world, voxels)
}

fn at(chunk: MatrixIndex, x: u8, y: u8) -> FullIndex {
    FullIndex { cell_index: MatrixIndex { x, y }, chunk_index: chunk }
}

fn id_at(world: &ChunkMap, i: FullIndex) -> Option<u16> {
    world.get(i).map(|c| c.id)
}

#[test]
fn matrix_index_flatten_roundtrip() {
    for (x, y) in [(0, 0), (255, 0), (0, 255), (17, 200), (255, 255)] {
        let i = MatrixIndex::new(x, y);
        assert_eq!(i.flatten(), (y * 256 + x) as u16);
        assert_eq!(MatrixIndex::from(i.flatten()), i);
        assert_eq!((i.x(), i.y()), (x, y));
    }
}

#[test]
fn matrix_index_offsets() {
    let i = MatrixIndex { x: 5, y: 7 };
    assert_eq!(i + (1, 2), MatrixIndex { x: 6, y: 9 });
    assert_eq!((i + (1, 2)) - (1, 2), i);
    assert!(MatrixIndex { x: 200, y: 0 } < MatrixIndex { x: 0, y: 1 });
}

#[test]
fn full_index_world_coordinates() {
    let i = FullIndex::from((300u16, 5u16));
    assert_eq!(i, at(MatrixIndex { x: 1, y: 0 }, 44, 5));
    assert_eq!(i.to_u16(), (300, 5));
    let j = FullIndex::from(0x0102_0304u32);
    assert_eq!(j.cell_index, MatrixIndex::from(0x0304u16));
    assert_eq!(j.chunk_index, MatrixIndex::from(0x0102u16));
}

#[test]
fn full_index_offsets_carry_across_chunks() {
    let i = at(MatrixIndex { x: 0, y: 3 }, 255, 0);
    assert_eq!(i + (1, 0), at(MatrixIndex { x: 1, y: 3 }, 0, 0));
    assert_eq!((i + (1, 0)) - (1, 0), i);
    assert_eq!(i - (0, 1), at(MatrixIndex { x: 0, y: 2 }, 255, 255));
    let (x, y) = (i + (3, 4)).to_u16();
    assert_eq!((x, y), (258, 3 * 256 + 4));
}

#[test]
fn matrix_swap_and_disjoint() {
    let mut m: Matrix<u32> = Matrix { elems: (0..65536u32).collect() };
    let a = MatrixIndex { x: 1, y: 0 };
    let b = MatrixIndex { x: 0, y: 2 };
    m.swap(a, b);
    assert_eq!((*m.index(a), *m.index(b)), (512, 1));
    {
        let (p, q) = m.get_disjoint_mut([a, b]);
        *p = 7;
        *q = 8;
    }
    assert_eq!((*m.index(a), *m.index(b)), (7, 8));
    let listed = m.iter_enumerate();
    assert_eq!(listed.len(), 65536);
    assert_eq!(listed[256].0, MatrixIndex { x: 0, y: 1 });
}

#[test]
fn matrix_iter_mut_enumerate_pairs_index_and_value() {
    let mut m: Matrix<u32> = Matrix { elems: (0..65536u32).collect() };
    {
        let (idx, vals) = m.iter_mut_enumerate();
        assert_eq!(idx.len(), vals.len());
        assert_eq!(idx[257], MatrixIndex { x: 1, y: 1 });
        assert_eq!(vals[257], 257);
        vals[257] = 9;
    }
    assert_eq!(*m.index(MatrixIndex { x: 1, y: 1 }), 9);
}

#[test]
fn matrix_bounded_box_follows_entries() {
    let mut m: MatrixBounded<u8> = MatrixBounded::new();
    assert_eq!(m.len, 0);
    m.insert(MatrixIndex { x: 3, y: 4 }, 1);
    m.insert(MatrixIndex { x: 5, y: 1 }, 2);
    assert_eq!((m.min_elem, m.max_elem), (MatrixIndex { x: 3, y: 1 }, MatrixIndex { x: 5, y: 4 }));
    assert_eq!(m.remove(MatrixIndex { x: 3, y: 4 }), 1);
    assert_eq!((m.min_elem, m.max_elem), (MatrixIndex { x: 5, y: 1 }, MatrixIndex { x: 5, y: 1 }));
    assert_eq!(m.remove(MatrixIndex { x: 5, y: 1 }), 2);
    assert_eq!(m.len, 0);
    assert_eq!((m.min_elem, m.max_elem), (MatrixIndex { x: 255, y: 255 }, MatrixIndex { x: 0, y: 0 }));
}

#[test]
fn matrix_bounded_listing_and_take_if() {
    let mut m: MatrixBounded<u8> = MatrixBounded::new();
    m.insert(MatrixIndex { x: 2, y: 2 }, 10);
    m.insert(MatrixIndex { x: 1, y: 2 }, 11);
    m.insert(MatrixIndex { x: 9, y: 0 }, 12);
    let listed: Vec<(MatrixIndex, u8)> = m.iter().into_iter().map(|(i, v)| (i, *v)).collect();
    assert_eq!(
        listed,
        vec![(MatrixIndex { x: 9, y: 0 }, 12), (MatrixIndex { x: 1, y: 2 }, 11), (MatrixIndex { x: 2, y: 2 }, 10)]
    );
    assert_eq!(m.iter_opt().len(), 3);
    let taken = m.take_if(|i: MatrixIndex| i.y == 2 && (i.x == 1 || i.x == 2));
    assert_eq!(taken, vec![(MatrixIndex { x: 1, y: 2 }, 11), (MatrixIndex { x: 2, y: 2 }, 10)]);
    assert_eq!(m.len, 1);
    assert_eq!((m.min_elem, m.max_elem), (MatrixIndex { x: 9, y: 0 }, MatrixIndex { x: 9, y: 0 }));
}

#[test]
fn chunk_new_counts_solid_cells() {
    let ids = ids_with(0, &[(0, 0, 6), (1, 0, 9), (2, 0, 2), (3, 0, 3)]);
    let (chunk, voxels) = Chunk::new(&ids);
    assert_eq!(voxels.voxels, 2);
    assert!(!voxels.voxels_modified || voxels.voxels_modified);
    assert_eq!(chunk.index(MatrixIndex { x: 1, y: 0 }).id, 9);
    assert!(!chunk.skip_simulation);
}

#[test]
fn set_keeps_solid_count() {
    let c = MatrixIndex { x: 1, y: 1 };
    let (mut world, mut voxels) = world_with(c, &ids_with(0, &[]));
    world.set(&mut voxels, at(c, 4, 4), 6);
    assert_eq!(id_at(&world, at(c, 4, 4)), Some(6));
    assert_eq!(id_at(&world, at(c, 4, 5)), Some(0));
    assert_eq!(voxels.chunks.index(c).as_ref().unwrap().voxels, 1);
    world.set(&mut voxels, at(c, 4, 4), 2);
    assert_eq!(voxels.chunks.index(c).as_ref().unwrap().voxels, 0);
    world.set(&mut voxels, at(MatrixIndex { x: 7, y: 7 }, 0, 0), 6);
    assert_eq!(id_at(&world, at(MatrixIndex { x: 7, y: 7 }, 0, 0)), None);
}

#[test]
fn swap_twice_is_no_change() {
    let c = MatrixIndex { x: 1, y: 1 };
    let (mut world, mut voxels) = world_with(c, &ids_with(0, &[(3, 3, 9)]));
    let a = at(c, 3, 3);
    let b = at(c, 3, 2);
    world.swap(&mut voxels, a, b);
    assert_eq!((id_at(&world, a), id_at(&world, b)), (Some(0), Some(9)));
    world.swap(&mut voxels, a, b);
    assert_eq!((id_at(&world, a), id_at(&world, b)), (Some(9), Some(0)));
    assert_eq!(voxels.chunks.index(c).as_ref().unwrap().voxels, 1);
}

#[test]
fn swap_across_chunks() {
    let c = MatrixIndex { x: 1, y: 1 };
    let d = MatrixIndex { x: 1, y: 0 };
    let (mut world, mut voxels) = world_with(c, &ids_with(0, &[(3, 0, 6)]));
    world.insert(&mut voxels, d, Chunk::new(&ids_with(0, &[])));
    let a = at(c, 3, 0);
    let b = a - (0, 1);
    assert_eq!(b, at(d, 3, 255));
    world.swap(&mut voxels, a, b);
    assert_eq!(id_at(&world, b), Some(6));
    assert_eq!(voxels.chunks.index(c).as_ref().unwrap().voxels, 0);
    assert_eq!(voxels.chunks.index(d).as_ref().unwrap().voxels, 1);
}

#[test]
fn load_and_remove_chunks() {
    let mut world = ChunkMap::default();
    let mut voxels = VoxelChunkMap::default();
    let c = MatrixIndex { x: 4, y: 5 };
    world.load(&mut voxels, c);
    assert_eq!(id_at(&world, at(c, 0, 0)), Some(0));
    assert!(world.index(c).is_some());
    world.set(&mut voxels, at(c, 1, 1), 5);
    world.load(&mut voxels, c);
    assert_eq!(id_at(&world, at(c, 1, 1)), Some(5));
    world.remove(&mut voxels, c);
    assert!(world.index(c).is_none());
    assert!(voxels.chunks.index(c).is_none());
}

#[test]
fn cells_table_and_densities() {
    let sand = Cell::new(9);
    let water = Cell::new(2);
    let air = Cell::new(0);
    let stone = Cell::new(6);
    assert_eq!(sand.cell_type(), CellType::Granular);
    assert_eq!(water.cell_type(), CellType::Liquid);
    assert!(air.is_air());
    assert!(sand.can_move(&water));
    assert!(water.can_move(&air));
    assert!(!sand.can_move(&stone));
    assert!(stone.is_collider() && sand.is_collider() && !water.is_collider());
    assert_eq!(sand.density(), 128);
    assert_eq!(sand.cell_data().name, "sand");
}

#[test]
fn colors_pack_in_channel_order() {
    let c = CellColor::new(1, 2, 3, 4);
    assert_eq!(c.as_u32(), 0x0403_0201);
    assert_eq!(c.to_array(), [1, 2, 3, 4]);
    assert!(CellColor::air().is_air());
    assert!(!c.is_air());
}

#[test]
fn gravity_speeds_up_after_four_pulls() {
    let mut c = Cell::new(9);
    for _ in 0..3 {
        c.gravity(64);
        assert_eq!(c.velocity.y, 0);
    }
    c.gravity(64);
    assert_eq!(c.velocity.y, -1);
    assert_eq!(c.gravity_part, 0);
    c.reverse_gravity(255);
    c.reverse_gravity(1);
    assert_eq!(c.velocity.y, 0);
}

#[test]
fn friction_slows_moving_axes() {
    let mut c = Cell::new(9);
    c.velocity.x = 3;
    c.velocity.y = -2;
    c.friction(200, 10);
    assert_eq!((c.velocity.x, c.velocity.y), (3, -2));
    c.friction(100, 10);
    assert_eq!((c.velocity.x, c.velocity.y), (2, -2));
    assert_eq!(c.friction.x, 44);
}

#[test]
fn direction_lists_by_kind() {
    assert_eq!(
        directions(CellType::Liquid, true, 0),
        vec![Direction::Down, Direction::DownLeft, Direction::DownRight, Direction::Left, Direction::Right]
    );
    assert_eq!(
        directions(CellType::Granular, false, 0),
        vec![Direction::Down, Direction::DownRight, Direction::DownLeft]
    );
    assert_eq!(directions(CellType::Gas, false, 1), vec![Direction::Up]);
    assert_eq!(directions(CellType::Gas, true, 5), vec![]);
    assert_eq!(directions(CellType::Static, true, 0), vec![]);
}

#[test]
fn random_draws_stay_in_range() {
    let mut rand = WorldRand::default();
    let mut heads = 0;
    for _ in 0..2000 {
        assert!(rand.gas() < 6);
        if rand.half() {
            heads += 1;
        }
    }
    assert!(heads > 0 && heads < 2000);
}

#[test]
fn sand_falls_through_air() {
    let c = MatrixIndex { x: 1, y: 1 };
    let (mut world, mut voxels) = world_with(c, &ids_with(0, &[(10, 100, 9)]));
    let mut rand = WorldRand::default();
    for frame in 1..=40u8 {
        world.simulate_chunk(&mut voxels, c, &mut rand, frame);
    }
    assert_eq!(id_at(&world, at(c, 10, 100)), Some(0));
    let mut found = None;
    for y in 0..100u8 {
        for x in 0..=255u8 {
            if id_at(&world, at(c, x, y)) == Some(9) {
                found = Some((x, y));
            }
        }
    }
    assert!(found.is_some());
    assert_eq!(voxels.chunks.index(c).as_ref().unwrap().voxels, 1);
}

#[test]
fn stone_stays_put() {
    let c = MatrixIndex { x: 1, y: 1 };
    let (mut world, mut voxels) = world_with(c, &ids_with(0, &[(10, 100, 6)]));
    let mut rand = WorldRand::default();
    for frame in 1..=10u8 {
        world.simulate_cell(&mut voxels, at(c, 10, 100), &mut rand, frame);
    }
    assert_eq!(id_at(&world, at(c, 10, 100)), Some(6));
    assert_eq!(world.get(at(c, 10, 100)).unwrap().last_changed, 10);
}

#[test]
fn a_cell_moves_once_per_frame() {
    let c = MatrixIndex { x: 1, y: 1 };
    let (mut world, mut voxels) = world_with(c, &ids_with(0, &[(10, 100, 9)]));
    let mut rand = WorldRand::default();
    world.simulate_cell(&mut voxels, at(c, 10, 100), &mut rand, 3);
    let before: Vec<Option<u16>> = (0..=255u8).map(|y| id_at(&world, at(c, 10, y))).collect();
    world.simulate_cell(&mut voxels, at(c, 10, 100), &mut rand, 3);
    let after: Vec<Option<u16>> = (0..=255u8).map(|y| id_at(&world, at(c, 10, y))).collect();
    assert_eq!(before, after);
}

#[test]
fn try_swap_into_denser_cell_fails() {
    let c = MatrixIndex { x: 1, y: 1 };
    let (mut world, mut voxels) = world_with(c, &ids_with(0, &[(10, 100, 9), (10, 99, 6)]));
    {
        let cell = world.get_mut(at(c, 10, 100)).unwrap();
        cell.velocity.y = -1;
    }
    assert!(!world.try_swap(&mut voxels, at(c, 10, 100), Direction::Down));
    assert_eq!(id_at(&world, at(c, 10, 99)), Some(6));
}

#[test]
fn try_swap_into_air_moves() {
    let c = MatrixIndex { x: 1, y: 1 };
    let (mut world, mut voxels) = world_with(c, &ids_with(0, &[(10, 100, 9)]));
    {
        let cell = world.get_mut(at(c, 10, 100)).unwrap();
        cell.velocity.y = -1;
    }
    assert!(world.try_swap(&mut voxels, at(c, 10, 100), Direction::Down));
    assert_eq!(id_at(&world, at(c, 10, 99)), Some(9));
    assert_eq!(id_at(&world, at(c, 10, 100)), Some(0));
}

#[test]
fn whole_world_step_keeps_chunks() {
    let c = MatrixIndex { x: 1, y: 1 };
    let (mut world, mut voxels) = world_with(c, &ids_with(2, &[]));
    world.insert(&mut voxels, MatrixIndex { x: 2, y: 1 }, Chunk::new(&ids_with(0, &[])));
    for frame in 0..3u8 {
        world.simulate(&mut voxels, frame);
    }
    assert!(world.index(c).is_some());
    assert!(world.index(MatrixIndex { x: 2, y: 1 }).is_some());
    assert!(voxels.chunks.index(c).is_some());
    assert_eq!(world.chunks.len, 2);
}

#[test]
fn scheduled_chunk_marks_and_unmarks() {
    let c = MatrixIndex { x: 1, y: 1 };
    let (mut world, mut voxels) = world_with(c, &ids_with(0, &[]));
    let mut rand = WorldRand::default();
    assert!(!world.simulate_scheduled(&mut voxels, c, &mut rand, 1, 0));
    assert!(world.index(c).as_ref().unwrap().skip_simulation);
    // a chunk already advanced is left alone while time is left
    assert!(!world.simulate_scheduled(&mut voxels, c, &mut rand, 1, TIME_PER_CHUNK - 1));
    assert!(world.index(c).as_ref().unwrap().skip_simulation);
    // a reading of the whole budget means time is up
    assert!(world.simulate_scheduled(&mut voxels, c, &mut rand, 2, TIME_PER_CHUNK));
    assert!(!world.index(c).as_ref().unwrap().skip_simulation);
    assert!(!world.simulate_scheduled(&mut voxels, MatrixIndex { x: 9, y: 9 }, &mut rand, 2, 5000));
}

#[test]
fn simulate_walks_the_bounds_with_coordinates_exchanged() {
    let a = MatrixIndex { x: 1, y: 2 };
    let b = MatrixIndex { x: 2, y: 2 };
    let mut world = ChunkMap::new();
    let mut voxels = VoxelChunkMap::new();
    world.insert(&mut voxels, a, Chunk::new(&ids_with(0, &[(10, 100, 9)])));
    world.insert(&mut voxels, b, Chunk::new(&ids_with(0, &[(10, 100, 9)])));
    world.chunks.get_mut(a).unwrap().skip_simulation = true;
    for frame in 1..=20u8 {
        world.simulate(&mut voxels, frame);
    }
    assert!(world.index(a).as_ref().unwrap().skip_simulation);
    assert_eq!(id_at(&world, at(a, 10, 100)), Some(9));
    assert_eq!(id_at(&world, at(b, 10, 100)), Some(0));
}

#[test]
fn try_swap_displaces_past_air() {
    let c = MatrixIndex { x: 1, y: 1 };
    let (mut world, mut voxels) = world_with(c, &ids_with(0, &[(10, 100, 9), (10, 98, 2)]));
    world.get_mut(at(c, 10, 100)).unwrap().velocity.y = -3;
    assert!(world.try_swap(&mut voxels, at(c, 10, 100), Direction::Down));
    assert_eq!(id_at(&world, at(c, 10, 98)), Some(9));
    assert_eq!(id_at(&world, at(c, 10, 99)), Some(2));
    assert_eq!(id_at(&world, at(c, 10, 100)), Some(0));
}

#[test]
fn try_swap_stops_before_a_heavier_cell() {
    let c = MatrixIndex { x: 1, y: 1 };
    let (mut world, mut voxels) = world_with(c, &ids_with(0, &[(10, 100, 9), (10, 98, 6)]));
    world.get_mut(at(c, 10, 100)).unwrap().velocity.y = -3;
    assert!(world.try_swap(&mut voxels, at(c, 10, 100), Direction::Down));
    assert_eq!(id_at(&world, at(c, 10, 99)), Some(9));
    assert_eq!(id_at(&world, at(c, 10, 98)), Some(6));
    assert_eq!(id_at(&world, at(c, 10, 100)), Some(0));
}

#[test]
fn missing_chunks_lists_unloaded_places_row_by_row() {
    let (world, _voxels) = world_with(MatrixIndex { x: 2, y: 1 }, &ids_with(0, &[]));
    let missing = noiter::load_chunks::missing_chunks(&world, MatrixIndex { x: 1, y: 1 }, MatrixIndex { x: 2, y: 2 });
    assert_eq!(
        missing,
        vec![MatrixIndex { x: 1, y: 1 }, MatrixIndex { x: 1, y: 2 }, MatrixIndex { x: 2, y: 2 }]
    );
}

#[test]
fn moves_across_the_middle_of_the_range_fail_and_the_centre_simulates() {
    let left = MatrixIndex { x: 127, y: 128 };
    let right = MatrixIndex { x: 128, y: 128 };
    let (mut world, mut voxels) = world_with(left, &ids_with(0, &[(255, 100, 9)]));
    world.insert(&mut voxels, right, Chunk::new(&ids_with(0, &[])));
    {
        let cell = world.get_mut(at(left, 255, 100)).unwrap();
        cell.velocity.y = -1;
    }
    assert!(!world.try_swap(&mut voxels, at(left, 255, 100), Direction::Left));
    assert_eq!(id_at(&world, at(left, 255, 100)), Some(9));
    assert!(world.try_swap(&mut voxels, at(left, 255, 100), Direction::Down));
    for frame in 0..4u8 {
        world.simulate(&mut voxels, frame);
    }
    assert!(world.index(left).is_some() && world.index(right).is_some());
}

#[test]
fn loading_a_range_leaves_exactly_the_range() {
    let (mut world, mut voxels) = world_with(MatrixIndex { x: 1, y: 1 }, &ids_with(0, &[(3, 4, 9)]));
    world.insert(&mut voxels, MatrixIndex { x: 5, y: 5 }, Chunk::new(&ids_with(0, &[])));
    voxels.chunks.get_mut(MatrixIndex { x: 5, y: 5 }).unwrap().collider = Some(77);
    // every place of the stored bounds outside the range must hold a chunk
    world.insert(&mut voxels, MatrixIndex { x: 5, y: 1 }, Chunk::new(&ids_with(0, &[])));
    world.insert(&mut voxels, MatrixIndex { x: 1, y: 5 }, Chunk::new(&ids_with(0, &[])));
    for y in 1..=5u8 {
        for x in 1..=5u8 {
            let i = MatrixIndex { x, y };
            if (x > 2 || y > 2) && world.index(i).is_none() {
                world.insert(&mut voxels, i, Chunk::new(&ids_with(0, &[])));
            }
        }
    }
    let (lo, hi) = (MatrixIndex { x: 1, y: 1 }, MatrixIndex { x: 2, y: 2 });
    let taken = world.take_outside(&mut voxels, lo, hi);
    assert_eq!(taken.len(), 21);
    let places: Vec<MatrixIndex> = taken.iter().map(|t| t.0).collect();
    assert_eq!(places[0], MatrixIndex { x: 3, y: 1 });
    assert_eq!(places[20], MatrixIndex { x: 5, y: 5 });
    assert!(places.windows(2).all(|w| (w[0].y, w[0].x) < (w[1].y, w[1].x)));
    assert_eq!(taken[20].2, Some(77));
    assert_eq!(taken[0].2, None);
    assert_eq!(world.chunks.len, 1);
    assert_eq!(voxels.chunks.len, 1);
    assert_eq!(id_at(&world, at(MatrixIndex { x: 1, y: 1 }, 3, 4)), Some(9));
    let missing = noiter::load_chunks::missing_chunks(&world, lo, hi);
    assert_eq!(missing.len(), 3);
    let made: Vec<_> = missing.iter().map(|_| Chunk::new(&ids_with(2, &[]))).collect();
    world.put_chunks(&mut voxels, missing, made);
    for y in 0..8u8 {
        for x in 0..8u8 {
            let i = MatrixIndex { x, y };
            let inside = (1..=2).contains(&x) && (1..=2).contains(&y);
            assert_eq!(world.index(i).is_some(), inside);
            assert_eq!(voxels.chunks.index(i).is_some(), inside);
        }
    }
    assert_eq!(id_at(&world, at(MatrixIndex { x: 1, y: 1 }, 3, 4)), Some(9));
    assert_eq!(id_at(&world, at(MatrixIndex { x: 2, y: 2 }, 3, 4)), Some(2));
}

#[test]
fn take_outside_with_nothing_outside_takes_nothing() {
    let (mut world, mut voxels) = world_with(MatrixIndex { x: 1, y: 1 }, &ids_with(0, &[]));
    let taken = world.take_outside(&mut voxels, MatrixIndex { x: 0, y: 0 }, MatrixIndex { x: 3, y: 3 });
    assert!(taken.is_empty());
    assert!(world.index(MatrixIndex { x: 1, y: 1 }).is_some());
    assert!(voxels.chunks.index(MatrixIndex { x: 1, y: 1 }).is_some());
}

#[test]
fn bounded_listing_has_one_item_per_entry() {
    let mut m: MatrixBounded<u32> = MatrixBounded::new();
    m.insert(MatrixIndex { x: 4, y: 2 }, 7);
    m.insert(MatrixIndex { x: 1, y: 3 }, 8);
    m.insert(MatrixIndex { x: 9, y: 2 }, 9);
    let items: Vec<(MatrixIndex, u32)> = m.iter().into_iter().map(|(i, v)| (i, *v)).collect();
    assert_eq!(items.len(), m.len);
    assert_eq!(
        items,
        vec![
            (MatrixIndex { x: 4, y: 2 }, 7),
            (MatrixIndex { x: 9, y: 2 }, 9),
            (MatrixIndex { x: 1, y: 3 }, 8)
        ]
    );
}

#[test]
fn neighbors_reach_filled_places_around_an_index() {
    let mut m: Matrix<Option<u32>> = Matrix { elems: (0..65536u32).map(|k| if k == 2 { None } else { Some(k) }).collect() };
    {
        let (below, left, here, right, above) = m.get_neighbors_mut(MatrixIndex { x: 1, y: 1 });
        assert_eq!(below.map(|v| *v), Some(1));
        assert_eq!(left.map(|v| *v), Some(256));
        assert_eq!(right.map(|v| *v), Some(258));
        assert_eq!(above.map(|v| *v), Some(513));
        *here.unwrap() = 7;
    }
    assert_eq!(*m.index(MatrixIndex { x: 1, y: 1 }), Some(7));
    let (below, left, here, right, _) = m.get_neighbors_mut(MatrixIndex { x: 0, y: 0 });
    assert!(below.is_none() && left.is_none());
    assert_eq!(here.map(|v| *v), Some(0));
    assert_eq!(right.map(|v| *v), Some(1));
    let (_, _, _, _, above) = m.get_neighbors_mut(MatrixIndex { x: 2, y: 255 });
    assert!(above.is_none());
}

#[test]
fn set_puts_a_fresh_cell() {
    let c = MatrixIndex { x: 1, y: 1 };
    let (mut world, mut voxels) = world_with(c, &ids_with(2, &[]));
    {
        let cell = world.get_mut(at(c, 3, 3)).unwrap();
        cell.last_changed = 7;
        cell.velocity.y = -2;
    }
    world.set(&mut voxels, at(c, 3, 3), 9);
    let cell = *world.get(at(c, 3, 3)).unwrap();
    assert_eq!(cell, Cell::new(9));
}

#[test]
fn cell_map_reads_back_what_was_written() {
    let a = MatrixIndex { x: 3, y: 1 };
    let b = MatrixIndex { x: 0, y: 2 };
    let (mut world, mut voxels) = world_with(a, &ids_with(0, &[]));
    world.insert(&mut voxels, b, Chunk::new(&ids_with(0, &[])));
    let mut m: CellMap<u32> = CellMap::new(&world);
    assert_eq!(m.get(at(a, 5, 6)), None);
    assert_eq!(m.get(at(b, 5, 6)), None);
    m.insert(at(a, 5, 6), 11);
    m.insert(at(b, 5, 6), 22);
    m.insert(at(a, 255, 255), 33);
    assert_eq!(m.get(at(a, 5, 6)), Some(&11));
    assert_eq!(m.get(at(b, 5, 6)), Some(&22));
    assert_eq!(m.get(at(a, 255, 255)), Some(&33));
    assert_eq!(m.get(at(b, 255, 255)), None);
    assert_eq!(m.get(at(a, 6, 5)), None);
    m.insert(at(a, 5, 6), 44);
    assert_eq!(m.get(at(a, 5, 6)), Some(&44));
    assert_eq!(m.get(at(b, 5, 6)), Some(&22));
}
