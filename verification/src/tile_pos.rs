//! Places of tiles: inside a chunk, and in the world.

use crate::chunk::{Chunk, TILES_PER_CHUNK, TILE_LENGTH, UNITS_PER_CHUNK};
use crate::math::{div_floor, lemma_floor_div, I64Vec2, IVec2, UVec2};
use vstd::prelude::*;

verus! {

/// The size of a tile map, in tiles.
#[derive(Clone, Copy, Debug, PartialEq, Eq, Structural)]
pub struct TilemapSize {
    pub x: u32,
    pub y: u32,
}

/// The place of a tile in its chunk, counted in tiles from the corner with
/// the least coordinates.
#[derive(Clone, Copy, Debug, PartialEq, Eq, Structural, Hash)]
pub struct TilePos {
    pub x: u32,
    pub y: u32,
}

/// The size of a chunk's tile map.
pub fn map_size() -> (size: TilemapSize)
    ensures
        size == (TilemapSize { x: TILES_PER_CHUNK, y: TILES_PER_CHUNK }),
{
    TilemapSize { x: TILES_PER_CHUNK, y: TILES_PER_CHUNK }
}

impl TilePos {
    pub fn new(x: u32, y: u32) -> (pos: TilePos)
        ensures
            pos == (TilePos { x, y }),
    {
        TilePos { x, y }
    }

    /// Whether the place lies in a map of `map_size`.
    pub open spec fn within(self, map_size: TilemapSize) -> bool {
        self.x < map_size.x && self.y < map_size.y
    }

    /// Whether the place lies in a chunk.
    pub open spec fn in_chunk(self) -> bool {
        self.x < TILES_PER_CHUNK && self.y < TILES_PER_CHUNK
    }

    /// The place `(x, y)`, if it lies in a map of `map_size`.
    pub open spec fn from_i32_pair_spec(x: i32, y: i32, map_size: TilemapSize) -> Option<TilePos> {
        if 0 <= x < map_size.x && 0 <= y < map_size.y {
            Some(TilePos { x: x as u32, y: y as u32 })
        } else {
            None
        }
    }

    /// Makes a place of two signed numbers, if they name one in a map of `map_size`.
    pub fn from_i32_pair(x: i32, y: i32, map_size: &TilemapSize) -> (pos: Option<TilePos>)
        ensures
            pos == TilePos::from_i32_pair_spec(x, y, *map_size),
            pos matches Some(p) ==> p.within(*map_size),
    {
        if x < 0 || y < 0 {
            None
        } else if x as u32 >= map_size.x || y as u32 >= map_size.y {
            None
        } else {
            Some(TilePos { x: x as u32, y: y as u32 })
        }
    }

    /// The place as the index of a saved tile.
    pub fn tile_index(&self) -> (index: UVec2)
        ensures
            index == (UVec2 { x: self.x, y: self.y }),
    {
        UVec2 { x: self.x, y: self.y }
    }
}

/// Places in a chunk and positions relative to the chunk's corner.
pub trait ChunkPosExt: Sized {
    /// The place on which `pos` falls, where `pos` is counted in world units
    /// from the chunk's corner; none where `pos` lies outside the chunk.
    spec fn from_in_chunk_pos_spec(pos: I64Vec2) -> Option<Self>;

    /// Where the place starts, in world units from the chunk's corner.
    spec fn in_chunk_pos(&self) -> I64Vec2;

    /// Finds the place of the tile on which `pos` falls.
    fn from_in_chunk_pos(pos: I64Vec2) -> (place: Option<Self>)
        ensures
            place == Self::from_in_chunk_pos_spec(pos),
    ;

    /// Computes where the tile at this place starts.
    fn get_in_chunk_pos(&self) -> (pos: I64Vec2)
        ensures
            pos == self.in_chunk_pos(),
    ;
}

impl ChunkPosExt for TilePos {
    open spec fn from_in_chunk_pos_spec(pos: I64Vec2) -> Option<TilePos> {
        if 0 <= pos.x < UNITS_PER_CHUNK && 0 <= pos.y < UNITS_PER_CHUNK {
            Some(
                TilePos {
                    x: (pos.x as int / TILE_LENGTH as int) as u32,
                    y: (pos.y as int / TILE_LENGTH as int) as u32,
                },
            )
        } else {
            None
        }
    }

    open spec fn in_chunk_pos(&self) -> I64Vec2 {
        I64Vec2 { x: (self.x * TILE_LENGTH) as i64, y: (self.y * TILE_LENGTH) as i64 }
    }

    fn from_in_chunk_pos(pos: I64Vec2) -> (place: Option<TilePos>) {
        let x: i64 = div_floor(pos.x, TILE_LENGTH as i64);
        let y: i64 = div_floor(pos.y, TILE_LENGTH as i64);
        if x < 0 || x >= TILES_PER_CHUNK as i64 || y < 0 || y >= TILES_PER_CHUNK as i64 {
            None
        } else {
            let size = map_size();
            TilePos::from_i32_pair(x as i32, y as i32, &size)
        }
    }

    fn get_in_chunk_pos(&self) -> (pos: I64Vec2) {
        let x: i64 = self.x as i64 * TILE_LENGTH as i64;
        let y: i64 = self.y as i64 * TILE_LENGTH as i64;
        I64Vec2 { x, y }
    }
}

/// A position inside a chunk falls on the one place whose tile covers it,
/// and the corner of a place in a chunk falls on that place.
pub proof fn lemma_in_chunk_pos(pos: I64Vec2, place: TilePos)
    ensures
        TilePos::from_in_chunk_pos_spec(pos) == Some(place) <==> (place.in_chunk()
            && place.in_chunk_pos().x <= pos.x < place.in_chunk_pos().x + TILE_LENGTH
            && place.in_chunk_pos().y <= pos.y < place.in_chunk_pos().y + TILE_LENGTH),
        place.in_chunk() ==> TilePos::from_in_chunk_pos_spec(place.in_chunk_pos()) == Some(place),
{
    lemma_floor_div(pos.x as int, TILE_LENGTH as int);
    lemma_floor_div(pos.y as int, TILE_LENGTH as int);
    lemma_floor_div(place.in_chunk_pos().x as int, TILE_LENGTH as int);
    lemma_floor_div(place.in_chunk_pos().y as int, TILE_LENGTH as int);
}

impl Chunk {
    /// The place in this chunk of the tile that covers the point `p`; none
    /// where `p` lies outside the chunk.
    pub open spec fn tile_at_spec(self, p: IVec2) -> Option<TilePos> {
        TilePos::from_in_chunk_pos_spec(
            I64Vec2 {
                x: (p.x - self.world_coords().x) as i64,
                y: (p.y - self.world_coords().y) as i64,
            },
        )
    }

    /// Where the tile at `place` of this chunk starts in the world.
    pub open spec fn tile_world_coords_spec(self, place: TilePos) -> I64Vec2 {
        I64Vec2 {
            x: (self.world_coords().x + place.x * TILE_LENGTH) as i64,
            y: (self.world_coords().y + place.y * TILE_LENGTH) as i64,
        }
    }

    /// Finds the tile of this chunk that covers the point `p`. There is one
    /// exactly where the chunk covers `p`.
    pub fn tile_at(&self, p: IVec2) -> (place: Option<TilePos>)
        ensures
            place == self.tile_at_spec(p),
            place is Some <==> self.covers(I64Vec2 { x: p.x as i64, y: p.y as i64 }),
            place matches Some(t) ==> t.in_chunk(),
    {
        let origin = self.get_world_coords();
        TilePos::from_in_chunk_pos(I64Vec2 { x: p.x as i64 - origin.x, y: p.y as i64 - origin.y })
    }

    /// Computes where the tile at `place` of this chunk starts in the world.
    pub fn tile_world_coords(&self, place: TilePos) -> (corner: I64Vec2)
        ensures
            corner == self.tile_world_coords_spec(place),
            corner.x == self.chunk_index.x * UNITS_PER_CHUNK + place.x * TILE_LENGTH,
            corner.y == self.chunk_index.y * UNITS_PER_CHUNK + place.y * TILE_LENGTH,
    {
        let origin = self.get_world_coords();
        let offset = place.get_in_chunk_pos();
        I64Vec2 { x: origin.x + offset.x, y: origin.y + offset.y }
    }

    /// The middle of the chunk's first tile: where the chunk's tile map is
    /// put in the world, since a tile map counts from the middle of its
    /// first tile.
    pub fn tilemap_translation(&self) -> (at: I64Vec2)
        ensures
            at.x == self.world_coords().x + TILE_LENGTH / 2,
            at.y == self.world_coords().y + TILE_LENGTH / 2,
    {
        let origin = self.get_world_coords();
        let half: i64 = (TILE_LENGTH / 2) as i64;
        I64Vec2 { x: origin.x + half, y: origin.y + half }
    }
}

/// The chunk and, in it, the place of the tile that cover the point `p`.
pub open spec fn locate_spec(p: IVec2) -> (Chunk, TilePos) {
    (
        Chunk {
            chunk_index: IVec2 {
                x: (p.x as int / UNITS_PER_CHUNK as int) as i32,
                y: (p.y as int / UNITS_PER_CHUNK as int) as i32,
            },
        },
        TilePos {
            x: ((p.x as int % UNITS_PER_CHUNK as int) / TILE_LENGTH as int) as u32,
            y: ((p.y as int % UNITS_PER_CHUNK as int) / TILE_LENGTH as int) as u32,
        },
    )
}

/// Finds the chunk and, in it, the tile that cover the point `p`.
pub fn locate(p: IVec2) -> (at: (Chunk, TilePos))
    ensures
        at == locate_spec(p),
        at.0.covers(I64Vec2 { x: p.x as i64, y: p.y as i64 }),
        at.0.tile_at_spec(p) == Some(at.1),
        at.1.in_chunk(),
        at.0.tile_world_coords_spec(at.1).x <= p.x < at.0.tile_world_coords_spec(at.1).x
            + TILE_LENGTH,
        at.0.tile_world_coords_spec(at.1).y <= p.y < at.0.tile_world_coords_spec(at.1).y
            + TILE_LENGTH,
{
    let chunk = Chunk::containing(p);
    let place = chunk.tile_at(p);
    proof {
        lemma_floor_div(p.x as int, UNITS_PER_CHUNK as int);
        lemma_floor_div(p.y as int, UNITS_PER_CHUNK as int);
        crate::math::lemma_floor_unique(
            p.x as int,
            UNITS_PER_CHUNK as int,
            chunk.chunk_index.x as int,
        );
        crate::math::lemma_floor_unique(
            p.y as int,
            UNITS_PER_CHUNK as int,
            chunk.chunk_index.y as int,
        );
        let rel = I64Vec2 {
            x: (p.x - chunk.world_coords().x) as i64,
            y: (p.y - chunk.world_coords().y) as i64,
        };
        lemma_in_chunk_pos(rel, place.unwrap());
    }
    (chunk, place.unwrap())
}

} // verus!
