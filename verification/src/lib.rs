//! Streaming of a tiled world in chunks: which chunks must be resident for a
//! set of viewers, how a chunk is written to and read from its backing file,
//! and how completed loads are merged into the live world.
//!
//! Everything here works on plain values. Positions are whole world units,
//! backing files are byte vectors, and the outcome of a background task is
//! handed in as a value: the caller does the I/O and owns the task handles.

pub mod animation;
pub mod chunk;
pub mod codec;
pub mod file_name;
pub mod ground;
pub mod input;
pub mod item;
pub mod laws;
pub mod math;
mod roster;
pub mod text;
pub mod tile_pos;
pub mod visibility;
pub mod world;

pub use animation::{Motion, PlayerAnimationState};
pub use chunk::{gen_chunk, Chunk, ChunkData, TileData, ViewDistance};
pub use codec::{decode, encode, DecodeError};
pub use file_name::file_name;
pub use ground::Ground;
pub use input::move_direction;
pub use item::{Item, ItemContainer};
pub use math::{I64Vec2, IVec2, Rect, UVec2};
pub use tile_pos::{locate, ChunkPosExt, TilePos, TilemapSize};
pub use visibility::{chunk_indices_inside, view_border};
pub use world::{load_chunk, ChunkState, IoError, LoadError, Resolution, SpawnError, World};
