//! Chunks: square blocks of tiles, addressed by their index in an unbounded
//! grid, and the part of the world that each of them covers.

use crate::ground::Ground;
use crate::math::{div_floor, floor_div, I64Vec2, IVec2, Rect, UVec2};
use vstd::prelude::*;

verus! {

/// The number of tiles along each side of a chunk.
pub const TILES_PER_CHUNK: u32 = 8;

/// The length of a tile's side in world units.
pub const TILE_LENGTH: u32 = 32;

/// The length of a chunk's side in world units.
pub const UNITS_PER_CHUNK: i64 = 256;

/// The number of tiles in a full chunk.
pub const TILES_IN_CHUNK: usize = 64;

/// How far a viewer sees, in tiles.
#[derive(Clone, Copy, Debug, PartialEq, Eq, Structural)]
pub struct ViewDistance(pub u16);

impl Default for ViewDistance {
    fn default() -> (d: ViewDistance)
        ensures
            d == ViewDistance(20),
    {
        ViewDistance(20)
    }
}

/// One tile of a chunk as it is saved: where it lies in the chunk and what
/// covers it.
#[derive(Clone, Copy, Debug, PartialEq, Eq, Structural)]
pub struct TileData {
    pub tile_index: UVec2,
    pub ground: Ground,
}

/// The contents of one chunk: its index and its tiles, in the order in which
/// they are saved.
#[derive(Debug, PartialEq, Eq)]
pub struct ChunkData {
    pub chunk_index: IVec2,
    pub tiles: Vec<TileData>,
}

/// The contents of a chunk as a mathematical value.
pub ghost struct ChunkView {
    pub chunk_index: IVec2,
    pub tiles: Seq<TileData>,
}

impl View for ChunkData {
    type V = ChunkView;

    open spec fn view(&self) -> ChunkView {
        ChunkView { chunk_index: self.chunk_index, tiles: self.tiles@ }
    }
}

/// Whether `tile_index` names a tile of a chunk.
pub open spec fn tile_in_bounds(tile_index: UVec2) -> bool {
    tile_index.x < TILES_PER_CHUNK && tile_index.y < TILES_PER_CHUNK
}

/// Whether `tiles` can be the tiles of a live chunk: each lies inside the
/// chunk, and no place in the chunk is taken twice. Places may be missing.
pub open spec fn tiles_well_formed(tiles: Seq<TileData>) -> bool {
    &&& forall|k: int| 0 <= k < tiles.len() ==> tile_in_bounds(#[trigger] tiles[k].tile_index)
    &&& forall|j: int, k: int|
        0 <= j < k < tiles.len() ==> (#[trigger] tiles[j]).tile_index != (
        #[trigger] tiles[k]).tile_index
}

/// The tile at place `k` of a freshly generated chunk: the tiles run column
/// by column, and all are grass.
pub open spec fn generated_tile(k: int) -> TileData {
    TileData {
        tile_index: UVec2 {
            x: (k / TILES_PER_CHUNK as int) as u32,
            y: (k % TILES_PER_CHUNK as int) as u32,
        },
        ground: Ground::Grass,
    }
}

/// The tiles of a chunk that was never visited before.
pub open spec fn generated_tiles() -> Seq<TileData> {
    Seq::new(TILES_IN_CHUNK as nat, |k: int| generated_tile(k))
}

/// The contents of the chunk at `index` where nothing was saved for it.
pub open spec fn gen_chunk_spec(index: IVec2) -> ChunkView {
    ChunkView { chunk_index: index, tiles: generated_tiles() }
}

/// A generated chunk has every place of the chunk exactly once.
pub proof fn lemma_generated_tiles_well_formed()
    ensures
        tiles_well_formed(generated_tiles()),
        generated_tiles().len() == TILES_IN_CHUNK,
        forall|t: UVec2|
            tile_in_bounds(t) ==> generated_tiles()[t.x * TILES_PER_CHUNK + t.y] == (TileData {
                tile_index: t,
                ground: Ground::Grass,
            }),
{
    let tiles = generated_tiles();
    assert forall|j: int, k: int| 0 <= j < k < tiles.len() implies (#[trigger] tiles[j]).tile_index
        != (#[trigger] tiles[k]).tile_index by {
        if j / 8 == k / 8 && j % 8 == k % 8 {
            assert(j == 8 * (j / 8) + j % 8);
            assert(k == 8 * (k / 8) + k % 8);
        }
    }
    assert forall|t: UVec2| tile_in_bounds(t) implies generated_tiles()[t.x * 8 + t.y] == (
    TileData { tile_index: t, ground: Ground::Grass }) by {
        let k = t.x * 8 + t.y;
        assert(k / 8 == t.x && k % 8 == t.y);
    }
}

impl ChunkData {
    /// Whether the chunk can be live: see `tiles_well_formed`.
    pub open spec fn well_formed(&self) -> bool {
        tiles_well_formed(self.tiles@)
    }

    /// Tests whether every tile lies inside the chunk and no place is taken twice.
    pub fn is_well_formed(&self) -> (ok: bool)
        ensures
            ok == self.well_formed(),
    {
        let n: usize = self.tiles.len();
        let mut k: usize = 0;
        while k < n
            invariant
                n == self.tiles.len(),
                k <= n,
                tiles_well_formed(self.tiles@.subrange(0, k as int)),
            decreases n - k,
        {
            let t = self.tiles[k].tile_index;
            if t.x >= TILES_PER_CHUNK || t.y >= TILES_PER_CHUNK {
                assert(!tile_in_bounds(self.tiles@[k as int].tile_index));
                return false;
            }
            let mut j: usize = 0;
            while j < k
                invariant
                    n == self.tiles.len(),
                    j <= k < n,
                    t == self.tiles@[k as int].tile_index,
                    forall|i: int| 0 <= i < j ==> (#[trigger] self.tiles@[i]).tile_index != t,
                decreases k - j,
            {
                let u = self.tiles[j].tile_index;
                if u.x == t.x && u.y == t.y {
                    assert(self.tiles@[j as int].tile_index == self.tiles@[k as int].tile_index);
                    return false;
                }
                j += 1;
            }
            proof {
                let before = self.tiles@.subrange(0, k as int);
                let after = self.tiles@.subrange(0, k as int + 1);
                assert forall|i: int| 0 <= i < after.len() implies tile_in_bounds(
                    #[trigger] after[i].tile_index,
                ) by {
                    if i < k {
                        assert(after[i] == before[i]);
                    }
                }
                assert forall|a: int, b: int| 0 <= a < b < after.len() implies (
                #[trigger] after[a]).tile_index != (#[trigger] after[b]).tile_index by {
                    if b < k {
                        assert(after[a] == before[a] && after[b] == before[b]);
                    } else {
                        assert(after[a] == self.tiles@[a]);
                    }
                }
            }
            k += 1;
        }
        assert(self.tiles@.subrange(0, n as int) =~= self.tiles@);
        true
    }

    /// A copy of the chunk: the same index and the same tiles in the same order.
    pub fn snapshot(&self) -> (copy: ChunkData)
        ensures
            copy@ == self@,
    {
        let mut tiles: Vec<TileData> = Vec::new();
        let n: usize = self.tiles.len();
        let mut k: usize = 0;
        while k < n
            invariant
                n == self.tiles.len(),
                k <= n,
                tiles@ == self.tiles@.subrange(0, k as int),
            decreases n - k,
        {
            tiles.push(self.tiles[k]);
            assert(tiles@ =~= self.tiles@.subrange(0, k as int + 1));
            k += 1;
        }
        assert(tiles@ =~= self.tiles@);
        ChunkData { chunk_index: self.chunk_index, tiles }
    }

    /// The ground at `tile_index`, if the chunk has a tile there.
    pub open spec fn ground_at_spec(&self, tile_index: UVec2) -> Option<Ground> {
        ground_in(self.tiles@, tile_index)
    }

    /// Looks up the ground of the tile at `tile_index`.
    pub fn ground_at(&self, tile_index: UVec2) -> (ground: Option<Ground>)
        ensures
            ground == self.ground_at_spec(tile_index),
    {
        match find_tile(&self.tiles, tile_index) {
            Some(k) => Some(self.tiles[k].ground),
            None => None,
        }
    }
}

/// The first place in `tiles` of a tile at `tile_index`, or the length of
/// `tiles` where there is none.
pub open spec fn tile_place(tiles: Seq<TileData>, tile_index: UVec2) -> int
    decreases tiles.len(),
{
    if tiles.len() == 0 {
        0
    } else if tiles[0].tile_index == tile_index {
        0
    } else {
        1 + tile_place(tiles.drop_first(), tile_index)
    }
}

/// The ground of the first tile at `tile_index` among `tiles`, if there is one.
pub open spec fn ground_in(tiles: Seq<TileData>, tile_index: UVec2) -> Option<Ground> {
    let k = tile_place(tiles, tile_index);
    if k < tiles.len() {
        Some(tiles[k].ground)
    } else {
        None
    }
}

/// The tiles after the ground at `tile_index` was set to `ground`: the
/// first tile at that place has the new ground, and nothing else changes.
pub open spec fn tiles_with_ground(tiles: Seq<TileData>, tile_index: UVec2, ground: Ground) -> Seq<
    TileData,
> {
    let k = tile_place(tiles, tile_index);
    if k < tiles.len() {
        tiles.update(k, TileData { tile_index, ground })
    } else {
        tiles
    }
}

/// Setting a ground keeps the tiles well formed.
pub proof fn lemma_tiles_with_ground(tiles: Seq<TileData>, tile_index: UVec2, ground: Ground)
    requires
        tiles_well_formed(tiles),
    ensures
        tiles_well_formed(tiles_with_ground(tiles, tile_index, ground)),
        tiles_with_ground(tiles, tile_index, ground).len() == tiles.len(),
        ground_in(tiles, tile_index) is Some ==> ground_in(
            tiles_with_ground(tiles, tile_index, ground),
            tile_index,
        ) == Some(ground),
{
    lemma_tile_place(tiles, tile_index);
    let k = tile_place(tiles, tile_index);
    let after = tiles_with_ground(tiles, tile_index, ground);
    if k < tiles.len() {
        assert forall|i: int| 0 <= i < after.len() implies tile_in_bounds(
            #[trigger] after[i].tile_index,
        ) by {
            assert(after[i].tile_index == tiles[i].tile_index);
        }
        assert forall|a: int, b: int| 0 <= a < b < after.len() implies (
        #[trigger] after[a]).tile_index != (#[trigger] after[b]).tile_index by {
            assert(after[a].tile_index == tiles[a].tile_index);
            assert(after[b].tile_index == tiles[b].tile_index);
        }
        lemma_tile_place(after, tile_index);
        let k2 = tile_place(after, tile_index);
        if k2 < k {
            assert(after[k2].tile_index == tiles[k2].tile_index);
        } else if k2 > k {
            assert(after[k].tile_index == tile_index);
        }
    }
}

/// `tile_place` is the least place with the index sought.
pub proof fn lemma_tile_place(tiles: Seq<TileData>, tile_index: UVec2)
    ensures
        0 <= tile_place(tiles, tile_index) <= tiles.len(),
        tile_place(tiles, tile_index) < tiles.len() ==> tiles[tile_place(
            tiles,
            tile_index,
        )].tile_index == tile_index,
        forall|i: int|
            0 <= i < tile_place(tiles, tile_index) ==> (#[trigger] tiles[i]).tile_index
                != tile_index,
    decreases tiles.len(),
{
    if tiles.len() > 0 && tiles[0].tile_index != tile_index {
        let rest = tiles.drop_first();
        lemma_tile_place(rest, tile_index);
        assert forall|i: int| 0 <= i < tile_place(tiles, tile_index) implies (
        #[trigger] tiles[i]).tile_index != tile_index by {
            if i > 0 {
                assert(tiles[i] == rest[i - 1]);
            }
        }
    }
}

/// Finds the first tile at `tile_index`.
pub fn find_tile(tiles: &Vec<TileData>, tile_index: UVec2) -> (place: Option<usize>)
    ensures
        match place {
            Some(k) => k == tile_place(tiles@, tile_index) && k < tiles.len(),
            None => tile_place(tiles@, tile_index) == tiles.len(),
        },
{
    let n: usize = tiles.len();
    let mut k: usize = 0;
    while k < n
        invariant
            n == tiles.len(),
            k <= n,
            forall|i: int| 0 <= i < k ==> (#[trigger] tiles@[i]).tile_index != tile_index,
        decreases n - k,
    {
        let t = tiles[k].tile_index;
        if t.x == tile_index.x && t.y == tile_index.y {
            proof {
                lemma_tile_place(tiles@, tile_index);
                let p = tile_place(tiles@, tile_index);
                assert(tiles@[k as int].tile_index == tile_index);
                if p < k {
                    assert(tiles@[p].tile_index == tile_index);
                }
            }
            return Some(k);
        }
        k += 1;
    }
    proof {
        lemma_tile_place(tiles@, tile_index);
        let p = tile_place(tiles@, tile_index);
        if p < n {
            assert(tiles@[p].tile_index == tile_index);
        }
    }
    None
}

/// Generates the contents of a chunk that was never saved: every place of
/// the chunk, column by column, covered with grass.
pub fn gen_chunk(index: IVec2) -> (chunk: ChunkData)
    ensures
        chunk@ == gen_chunk_spec(index),
        chunk.well_formed(),
{
    let mut tile_data: Vec<TileData> = Vec::new();
    let mut x: u32 = 0;
    while x < TILES_PER_CHUNK
        invariant
            x <= TILES_PER_CHUNK,
            tile_data@.len() == x * 8,
            forall|k: int| 0 <= k < tile_data@.len() ==> tile_data@[k] == generated_tile(k),
        decreases TILES_PER_CHUNK - x,
    {
        let mut y: u32 = 0;
        while y < TILES_PER_CHUNK
            invariant
                x < TILES_PER_CHUNK,
                y <= TILES_PER_CHUNK,
                tile_data@.len() == x * 8 + y,
                forall|k: int| 0 <= k < tile_data@.len() ==> tile_data@[k] == generated_tile(k),
            decreases TILES_PER_CHUNK - y,
        {
            proof {
                let k = x * 8 + y;
                assert(k / 8 == x && k % 8 == y);
            }
            tile_data.push(TileData { tile_index: UVec2 { x, y }, ground: Ground::Grass });
            y += 1;
        }
        x += 1;
    }
    proof {
        assert(tile_data@ =~= generated_tiles());
        lemma_generated_tiles_well_formed();
    }
    ChunkData { chunk_index: index, tiles: tile_data }
}

/// A live chunk, known by its index.
#[derive(Clone, Copy, Debug, PartialEq, Eq, Structural)]
pub struct Chunk {
    pub chunk_index: IVec2,
}

impl Chunk {
    /// The corner of the chunk with the least coordinates: the index times
    /// the length of a chunk's side.
    pub open spec fn world_coords(self) -> I64Vec2 {
        I64Vec2 {
            x: (self.chunk_index.x * UNITS_PER_CHUNK) as i64,
            y: (self.chunk_index.y * UNITS_PER_CHUNK) as i64,
        }
    }

    /// Whether the point `p` lies in the chunk. The sides with the least
    /// coordinates belong to the chunk, the opposite ones to its neighbours.
    pub open spec fn covers(self, p: I64Vec2) -> bool {
        &&& self.world_coords().x <= p.x < self.world_coords().x + UNITS_PER_CHUNK
        &&& self.world_coords().y <= p.y < self.world_coords().y + UNITS_PER_CHUNK
    }

    /// Whether the chunk and `rect` overlap.
    pub open spec fn intersects(self, rect: Rect) -> bool {
        &&& rect.min.x <= rect.max.x
        &&& rect.min.y <= rect.max.y
        &&& self.world_coords().x <= rect.max.x
        &&& rect.min.x < self.world_coords().x + UNITS_PER_CHUNK
        &&& self.world_coords().y <= rect.max.y
        &&& rect.min.y < self.world_coords().y + UNITS_PER_CHUNK
    }

    /// Where the chunk starts in the world.
    pub fn get_world_coords(&self) -> (origin: I64Vec2)
        ensures
            origin == self.world_coords(),
            origin.x == self.chunk_index.x * 256,
            origin.y == self.chunk_index.y * 256,
    {
        let x: i64 = self.chunk_index.x as i64 * UNITS_PER_CHUNK;
        let y: i64 = self.chunk_index.y as i64 * UNITS_PER_CHUNK;
        I64Vec2 { x, y }
    }

    /// The extent of a chunk along both axes.
    pub fn get_size(&self) -> (size: I64Vec2)
        ensures
            size == (I64Vec2 { x: UNITS_PER_CHUNK, y: UNITS_PER_CHUNK }),
            size.x == TILES_PER_CHUNK * TILE_LENGTH,
    {
        I64Vec2::splat(UNITS_PER_CHUNK)
    }

    /// The chunk in which the point `p` lies.
    pub fn containing(p: IVec2) -> (chunk: Chunk)
        ensures
            chunk.covers(I64Vec2 { x: p.x as i64, y: p.y as i64 }),
            chunk.chunk_index.x == floor_div(p.x as int, UNITS_PER_CHUNK as int),
            chunk.chunk_index.y == floor_div(p.y as int, UNITS_PER_CHUNK as int),
    {
        let x: i64 = div_floor(p.x as i64, UNITS_PER_CHUNK);
        let y: i64 = div_floor(p.y as i64, UNITS_PER_CHUNK);
        Chunk { chunk_index: IVec2 { x: x as i32, y: y as i32 } }
    }
}

/// A chunk overlaps a rectangle exactly if they have a point in common.
pub proof fn lemma_intersects_iff_common_point(chunk: Chunk, rect: Rect)
    ensures
        chunk.intersects(rect) <==> exists|p: I64Vec2| chunk.covers(p) && rect.contains(p),
{
    if chunk.intersects(rect) {
        let o = chunk.world_coords();
        let px: i64 = if rect.min.x >= o.x {
            rect.min.x
        } else {
            o.x
        };
        let py: i64 = if rect.min.y >= o.y {
            rect.min.y
        } else {
            o.y
        };
        let p = I64Vec2 { x: px, y: py };
        assert(chunk.covers(p) && rect.contains(p));
    }
}

/// Exactly one chunk covers a point.
pub proof fn lemma_one_chunk_covers(a: Chunk, b: Chunk, p: I64Vec2)
    requires
        a.covers(p),
        b.covers(p),
    ensures
        a == b,
{
    assert(a.chunk_index.x == b.chunk_index.x);
    assert(a.chunk_index.y == b.chunk_index.y);
}

} // verus!
