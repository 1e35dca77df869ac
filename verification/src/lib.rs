use vstd::prelude::*;

pub mod array;
pub mod camera;
pub mod cell;
pub mod cell_gravity;
pub mod chunk;
pub mod collider_world;
pub mod chunk_map;
pub mod load_chunks;
pub mod matrix;
pub mod neighbor_simulation;
pub mod pixel_run;
pub mod pointer;
pub mod shapes;
pub mod simulate_world;
pub mod uninit_cell_map;
pub mod world_image;

verus! {

/// Identifier of a chunk's coordinate along one axis of the chunk map.
pub type ChunkIndexType = u8;

pub const APP_NAME: &'static str = "com.github.bgkillas.noiter";
pub const PIXEL_LENGTH: u32 = 4;
/// The color behind the world, as RGBA.
pub const BACKGROUND_COLOR: u32 = 0x96b7_ddff;
pub const CHUNK_WIDTH: usize = 256;
pub const CHUNK_HEIGHT: usize = 256;
pub const CHUNK_AREA: usize = 65536;
pub const CHUNK_MAP_WIDTH: usize = 256;
pub const CHUNK_MAP_HEIGHT: usize = 256;
pub const CHUNK_MAP_AREA: usize = 65536;
pub const CHUNK_WIDTH_LAST: ChunkIndexType = 255;
pub const CHUNK_HEIGHT_LAST: ChunkIndexType = 255;
pub const CHUNK_MAP_WIDTH_LAST: ChunkIndexType = 255;
pub const CHUNK_MAP_HEIGHT_LAST: ChunkIndexType = 255;

} // verus!
