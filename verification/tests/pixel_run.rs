use noiter::array::Array;
use noiter::chunk::Chunk;
use noiter::load_chunks::{load_range, outside_range, random_chunk_ids};
use noiter::matrix::MatrixIndex;
use noiter::pixel_run::{chunk_ids_from_runs, PixelRun, PixelRunBuilder, PixelRunOwned};
use noiter::simulate_world::WorldRand;

fn decoded(run: PixelRun) -> Vec<u16> {
    let mut it = run.iter();
    let mut out = Vec::new();
    while let Some(p) = it.next() {
        out.push(p);
    }
    out
}

fn striped_ids() -> Vec<u16> {
    (0..65536usize).map(|k| if (k / 300) % 3 == 0 { 9 } else if k % 7 == 0 { 2 } else { 0 }).collect()
}

#[test]
fn runs_decode_to_repeated_pixels() {
    let runs = [[2u16, 5u16], [0, 7], [1, 5]];
    assert_eq!(decoded(PixelRun { arr: &runs }), vec![5, 5, 5, 7, 5, 5]);
}

#[test]
fn builder_joins_equal_pixels() {
    let mut b = PixelRunBuilder::default();
    b.current = 4;
    for p in [4, 4, 6, 6, 6, 1] {
        b.push(p);
    }
    let run = b.build();
    assert_eq!(run.arr, &[[2, 4], [2, 6], [0, 1]]);
    assert_eq!(b.len, 0);
    b.clear();
    assert_eq!(b.pixel_run().arr.len(), 0);
    assert_eq!(b.current, 1);
}

#[test]
fn finish_closes_the_open_run() {
    let mut b = PixelRunBuilder::default();
    b.push(0);
    b.push(0);
    b.finish();
    b.finish();
    assert_eq!(b.pixel_run().arr, &[[2, 0], [0, 0]]);
}

#[test]
fn chunk_runs_roundtrip() {
    let ids = striped_ids();
    let (chunk, _) = Chunk::new(&ids);
    let owned = chunk.get_pixel_run();
    let run = owned.slice();
    let changes = ids.windows(2).filter(|w| w[0] != w[1]).count();
    assert_eq!(run.arr.len(), changes + 1);
    assert_eq!(decoded(run), ids);
}

#[test]
fn uniform_chunk_is_one_run() {
    let (chunk, _) = Chunk::new(&vec![6u16; 65536]);
    let owned = chunk.get_pixel_run();
    assert_eq!(owned.slice().arr, &[[65535, 6]]);
}

#[test]
fn write_chunk_then_bytes_roundtrip() {
    let ids = striped_ids();
    let (chunk, _) = Chunk::new(&ids);
    let mut b = PixelRunBuilder::default();
    b.write_chunk(&chunk);
    b.finish();
    let bytes = b.write_bytes();
    assert_eq!(bytes.len(), b.pixel_run().arr.len() * 4);
    let mut c = PixelRunBuilder::default();
    c.read_bytes(&bytes);
    assert_eq!(c.pixel_run().arr, b.pixel_run().arr);
    let back = chunk_ids_from_runs(c.pixel_run()).unwrap();
    assert_eq!(back, ids);
}

#[test]
fn bytes_are_little_endian() {
    let mut b = PixelRunBuilder::default();
    b.current = 0x0203;
    b.len = 0x0401;
    b.finish();
    assert_eq!(b.write_bytes(), vec![0x01, 0x04, 0x03, 0x02]);
    let mut c = PixelRunBuilder::default();
    c.read_bytes(&[0x01, 0x04, 0x03, 0x02, 0xff]);
    assert_eq!(c.pixel_run().arr, &[[0x0401, 0x0203]]);
}

#[test]
fn short_or_unknown_runs_are_refused() {
    let short = [[10u16, 0u16]];
    assert!(chunk_ids_from_runs(PixelRun { arr: &short }).is_none());
    let unknown = [[65535u16, 12u16]];
    assert!(chunk_ids_from_runs(PixelRun { arr: &unknown }).is_none());
    let long = [[65535u16, 3u16], [4, 1]];
    let ids = chunk_ids_from_runs(PixelRun { arr: &long }).unwrap();
    assert_eq!(ids.len(), 65536);
    assert!(ids.iter().all(|&i| i == 3));
}

#[test]
fn owned_runs_start_empty() {
    let owned = PixelRunOwned::default();
    assert_eq!(owned.slice().arr.len(), 0);
}

#[test]
fn array_push_pop_drain() {
    let mut a: Array<u8, 4> = Array::default();
    a.push(1);
    a.push(2);
    a.push(3);
    assert_eq!(a.len(), 3);
    assert_eq!(*a.index(1), 2);
    assert_eq!(a.pop(), 3);
    assert_eq!(a.slice(), &[1, 2]);
    a.iter_mut()[0] = 9;
    assert_eq!(a.iter(), &[9, 2]);
    assert_eq!(a.drain(), vec![9, 2]);
    assert_eq!(a.len(), 0);
    a.push(5);
    a.clear();
    assert_eq!(a.len(), 0);
}

#[test]
fn load_range_around_a_point() {
    let (lo, hi) = load_range(1000, 2000, 300, 100);
    assert_eq!(lo, MatrixIndex { x: 2, y: 7 });
    assert_eq!(hi, MatrixIndex { x: 6, y: 9 });
    let (lo, hi) = load_range(512, 512, 0, 0);
    assert_eq!((lo, hi), (MatrixIndex { x: 2, y: 2 }, MatrixIndex { x: 2, y: 2 }));
    assert!(!outside_range(MatrixIndex { x: 2, y: 7 }, MatrixIndex { x: 2, y: 7 }, MatrixIndex { x: 6, y: 9 }));
    assert!(outside_range(MatrixIndex { x: 7, y: 8 }, MatrixIndex { x: 2, y: 7 }, MatrixIndex { x: 6, y: 9 }));
    assert!(outside_range(MatrixIndex { x: 3, y: 6 }, MatrixIndex { x: 2, y: 7 }, MatrixIndex { x: 6, y: 9 }));
}

#[test]
fn random_chunks_use_three_kinds() {
    let mut rand = WorldRand::default();
    let ids = random_chunk_ids(&mut rand.rng);
    assert_eq!(ids.len(), 65536);
    assert!(ids.iter().all(|&i| (2..5).contains(&i)));
    assert!(ids.contains(&2) && ids.contains(&3) && ids.contains(&4));
}

#[test]
fn written_chunk_iterates_back_to_its_ids() {
    let ids: Vec<u16> = (0..65536u32).map(|k| ((k / 7) % 2) as u16).collect();
    let chunk = Chunk::new(&ids).0;
    let mut b = PixelRunBuilder::default();
    b.write_chunk(&chunk);
    b.finish();
    let mut it = b.pixel_run().iter();
    let mut out = Vec::new();
    while let Some(p) = it.next() {
        out.push(p);
    }
    assert_eq!(out.len(), 65536);
    assert_eq!(out, ids);
}
