//! The live world: which chunks are resident, which are being loaded, and
//! the step that brings both in line with what the viewers see.

use crate::chunk::{
    find_tile, generated_tiles, ground_in, lemma_tiles_with_ground, tiles_well_formed,
    tiles_with_ground, ChunkData, ChunkView, TileData, ViewDistance,
};
use crate::codec::{decode, decode_spec};
use crate::ground::Ground;
use crate::math::{IVec2, UVec2};
use crate::roster::{
    bring_in_listed, chunk_map, chunk_place, chunks_distinct, count_index, evict_unlisted,
    find_chunk, find_index, has_chunk, lemma_chunk_map_at, lemma_chunk_map_push,
    lemma_chunk_map_remove, lemma_count_index, lemma_has_chunk_push, lemma_index_list_remove,
    lemma_nothing_live, lemma_nothing_loading, sound,
};
use crate::tile_pos::{locate, locate_spec};
use crate::visibility::{contains_index, visible, visible_chunk_indices};
use vstd::prelude::*;

verus! {

/// The live world as a mathematical value: the tiles of each resident chunk,
/// by the chunk's index, and the indices of the chunks that are being loaded.
pub ghost struct WorldView {
    pub chunks: Map<IVec2, Seq<TileData>>,
    pub loading: Set<IVec2>,
}

impl WorldView {
    /// The world with the chunk at `index` live, holding `tiles`.
    pub open spec fn with_chunk(self, index: IVec2, tiles: Seq<TileData>) -> WorldView {
        WorldView { chunks: self.chunks.insert(index, tiles), loading: self.loading }
    }

    /// The world without a live chunk at `index`.
    pub open spec fn without_chunk(self, index: IVec2) -> WorldView {
        WorldView { chunks: self.chunks.remove(index), loading: self.loading }
    }

    /// The world with no load under way for `index`.
    pub open spec fn without_load(self, index: IVec2) -> WorldView {
        WorldView { chunks: self.chunks, loading: self.loading.remove(index) }
    }

    /// Where the chunk at `index` stands.
    pub open spec fn state(self, index: IVec2) -> ChunkState {
        if self.chunks.contains_key(index) {
            ChunkState::Resident
        } else if self.loading.contains(index) {
            ChunkState::PendingLoad
        } else {
            ChunkState::Unloaded
        }
    }

    /// Whether no chunk is live and being loaded at once.
    pub open spec fn states_apart(self) -> bool {
        forall|index: IVec2| !(self.chunks.contains_key(index) && self.loading.contains(index))
    }
}

/// Where a chunk stands between its backing file and the live world.
#[derive(Clone, Copy, Debug, PartialEq, Eq, Structural)]
pub enum ChunkState {
    /// Neither live nor being loaded.
    Unloaded,
    /// A load of its backing file is under way.
    PendingLoad,
    /// Live.
    Resident,
}

/// Why a chunk that was handed to the world is not live now.
#[derive(Clone, Copy, Debug, PartialEq, Eq, Structural)]
pub enum SpawnError {
    /// A chunk with this index is live or being loaded.
    Duplicate,
    /// A tile lies outside the chunk, or two tiles take the same place.
    Malformed,
}

/// Why a load did not make its chunk live.
#[derive(Clone, Copy, Debug, PartialEq, Eq, Structural)]
pub enum LoadError {
    /// The backing file could not be read.
    Io,
    /// The backing file holds no chunk, or not the chunk that was asked for,
    /// or one whose tiles are not well formed.
    Decode,
    /// No load was under way for this chunk: the task's outcome would make
    /// the chunk live a second time.
    DuplicateLoad,
}

/// The failure of a task that read a backing file.
#[derive(Clone, Copy, Debug, PartialEq, Eq, Structural)]
pub struct IoError;

/// The live world. No chunk is live twice, none is live and being loaded at
/// once, and none is being loaded twice.
pub struct World {
    chunks: Vec<ChunkData>,
    loading: Vec<IVec2>,
}

impl View for World {
    type V = WorldView;

    closed spec fn view(&self) -> WorldView {
        WorldView { chunks: chunk_map(self.chunks@), loading: self.loading@.to_set() }
    }
}

/// Whether the chunk at `index` is wanted and the world has nothing of it:
/// some viewer sees it, it is not live, and it is not being loaded.
pub open spec fn missing(
    world: WorldView,
    index: IVec2,
    viewers: Seq<IVec2>,
    view_distance: ViewDistance,
) -> bool {
    &&& visible(index, viewers, view_distance)
    &&& !world.chunks.contains_key(index)
    &&& !world.loading.contains(index)
}

/// Whether the chunk at `index` is live though no viewer sees it.
pub open spec fn stale(
    world: WorldView,
    index: IVec2,
    viewers: Seq<IVec2>,
    view_distance: ViewDistance,
) -> bool {
    world.chunks.contains_key(index) && !visible(index, viewers, view_distance)
}

/// The world after one step for `viewers`, where `stored` holds the indices
/// that have a backing file. The live chunks that some viewer sees stay as
/// they are and the others leave. Of the missing chunks, those with a
/// backing file are being loaded from now on, and the others are live with
/// generated tiles. What was being loaded before still is.
pub open spec fn resolved(
    world: WorldView,
    viewers: Seq<IVec2>,
    view_distance: ViewDistance,
    stored: Set<IVec2>,
) -> WorldView {
    WorldView {
        chunks: Map::new(
            |index: IVec2|
                (world.chunks.contains_key(index) && visible(index, viewers, view_distance)) || (
                missing(world, index, viewers, view_distance) && !stored.contains(index)),
            |index: IVec2|
                if world.chunks.contains_key(index) {
                    world.chunks[index]
                } else {
                    generated_tiles()
                },
        ),
        loading: Set::new(
            |index: IVec2|
                world.loading.contains(index) || (missing(world, index, viewers, view_distance)
                    && stored.contains(index)),
        ),
    }
}

/// What a task that loads the chunk at `index` hands back, where `read` is
/// what came of reading the backing file: the chunk that the bytes stand
/// for, if they were read, stand for a chunk with the index asked for, and
/// that chunk's tiles are well formed.
pub open spec fn load_chunk_spec(index: IVec2, read: Result<Vec<u8>, IoError>) -> Result<
    ChunkView,
    LoadError,
> {
    match read {
        Err(_) => Err(LoadError::Io),
        Ok(bytes) => match decode_spec(bytes@) {
            Some(chunk) => if chunk.chunk_index == index && tiles_well_formed(chunk.tiles) {
                Ok(chunk)
            } else {
                Err(LoadError::Decode)
            },
            None => Err(LoadError::Decode),
        },
    }
}

/// Turns what came of reading the backing file of the chunk at `index`
/// into the outcome of the load. This is the part of a load that needs
/// nothing of the live world, so that it can run beside it.
pub fn load_chunk(index: IVec2, read: Result<Vec<u8>, IoError>) -> (outcome: Result<
    ChunkData,
    LoadError,
>)
    ensures
        match outcome {
            Ok(chunk) => load_chunk_spec(index, read) == Ok::<ChunkView, LoadError>(chunk@),
            Err(error) => load_chunk_spec(index, read) == Err::<ChunkView, LoadError>(error),
        },
{
    let bytes = match read {
        Ok(bytes) => bytes,
        Err(_) => {
            return Err(LoadError::Io);
        },
    };
    let chunk = match decode(bytes.as_slice()) {
        Ok(chunk) => chunk,
        Err(_) => {
            return Err(LoadError::Decode);
        },
    };
    if chunk.chunk_index.x != index.x || chunk.chunk_index.y != index.y || !chunk.is_well_formed() {
        return Err(LoadError::Decode);
    }
    Ok(chunk)
}

/// Whether `chunk` can go live as the chunk at `index`: it has that index
/// and its tiles are well formed.
pub open spec fn fits(chunk: ChunkData, index: IVec2) -> bool {
    chunk.chunk_index == index && chunk.well_formed()
}

/// What `World::task_poll` answers.
pub open spec fn task_poll_result(
    world: WorldView,
    index: IVec2,
    outcome: Option<Result<ChunkData, LoadError>>,
) -> Result<ChunkState, LoadError> {
    if !world.loading.contains(index) {
        Err(LoadError::DuplicateLoad)
    } else {
        match outcome {
            None => Ok(ChunkState::PendingLoad),
            Some(Err(error)) => Err(error),
            Some(Ok(chunk)) => if fits(chunk, index) {
                Ok(ChunkState::Resident)
            } else {
                Err(LoadError::Decode)
            },
        }
    }
}

/// The world after `World::task_poll`.
pub open spec fn task_poll_world(
    world: WorldView,
    index: IVec2,
    outcome: Option<Result<ChunkData, LoadError>>,
) -> WorldView {
    if !world.loading.contains(index) {
        world
    } else {
        match outcome {
            None => world,
            Some(Err(_)) => world.without_load(index),
            Some(Ok(chunk)) => if fits(chunk, index) {
                world.without_load(index).with_chunk(index, chunk.tiles@)
            } else {
                world.without_load(index)
            },
        }
    }
}

/// What one step of `World::load_deload_chunks` asks of the caller.
pub struct Resolution {
    /// The chunks that left the live world, as they were when they left:
    /// each is to be written to its backing file.
    pub saves: Vec<ChunkData>,
    /// The chunks whose backing file is to be read; they are being loaded
    /// from now on.
    pub loads: Vec<IVec2>,
    /// The chunks that were generated and are live now.
    pub spawned: Vec<IVec2>,
}

impl Resolution {
    /// Whether the step's requests are those that the step from `world` for
    /// `viewers` calls for: one save for each stale chunk, with the tiles it
    /// had in `world`; one load for each missing chunk with a backing file;
    /// and one entry in `spawned` for each missing chunk without.
    pub open spec fn answers(
        &self,
        world: WorldView,
        viewers: Seq<IVec2>,
        view_distance: ViewDistance,
        stored: Set<IVec2>,
    ) -> bool {
        &&& forall|j: int, k: int|
            0 <= j < k < self.saves@.len() ==> (#[trigger] self.saves@[j]).chunk_index != (
            #[trigger] self.saves@[k]).chunk_index
        &&& forall|k: int|
            0 <= k < self.saves@.len() ==> stale(
                world,
                (#[trigger] self.saves@[k]).chunk_index,
                viewers,
                view_distance,
            ) && self.saves@[k].tiles@ == world.chunks[self.saves@[k].chunk_index]
        &&& forall|index: IVec2|
            #[trigger] stale(world, index, viewers, view_distance) ==> exists|k: int|
                0 <= k < self.saves@.len() && (#[trigger] self.saves@[k]).chunk_index == index
        &&& self.loads@.no_duplicates()
        &&& forall|index: IVec2|
            #![trigger self.loads@.contains(index)]
            #![trigger missing(world, index, viewers, view_distance)]
            self.loads@.contains(index) <==> missing(world, index, viewers, view_distance)
                && stored.contains(index)
        &&& self.spawned@.no_duplicates()
        &&& forall|index: IVec2|
            #![trigger self.spawned@.contains(index)]
            #![trigger missing(world, index, viewers, view_distance)]
            self.spawned@.contains(index) <==> missing(world, index, viewers, view_distance)
                && !stored.contains(index)
    }

    /// Whether the step asks for nothing.
    pub open spec fn is_empty_spec(&self) -> bool {
        self.saves@.len() == 0 && self.loads@.len() == 0 && self.spawned@.len() == 0
    }

    /// Tests whether the step asks for nothing: no save, no load, and nothing
    /// was generated.
    pub fn is_empty(&self) -> (empty: bool)
        ensures
            empty == self.is_empty_spec(),
    {
        self.saves.len() == 0 && self.loads.len() == 0 && self.spawned.len() == 0
    }
}

impl World {
    /// Whether the world keeps its rules: no chunk is live twice, none is
    /// live and being loaded at once, none is being loaded twice, and the
    /// tiles of each live chunk are well formed. Every world that a program
    /// holds keeps them.
    #[verifier::type_invariant]
    pub closed spec fn wf(&self) -> bool {
        sound(self.chunks@, self.loading@)
    }

    /// How many live copies of the chunk at `index` there are.
    pub closed spec fn live_count(&self, index: IVec2) -> nat {
        count_index(self.chunks@, index)
    }


    /// An empty world: nothing is live and nothing is being loaded.
    pub fn new() -> (world: World)
        ensures
            world@.chunks == Map::<IVec2, Seq<TileData>>::empty(),
            world@.loading == Set::<IVec2>::empty(),
    {
        let world = World { chunks: Vec::new(), loading: Vec::new() };
        proof {
            assert(world@.chunks =~= Map::<IVec2, Seq<TileData>>::empty());
            assert(world@.loading =~= Set::<IVec2>::empty());
        }
        world
    }

    /// Brings the world in line with what `viewers` see.
    ///
    /// Every live chunk that no viewer sees leaves the world; what it held
    /// at that moment is handed back in `saves`, once, to be written to its
    /// backing file. Only then are the missing chunks brought in: each chunk
    /// that some viewer sees and that is neither live nor being loaded. One
    /// whose index is in `stored`, the indices that have a backing file, is
    /// being loaded from now on and is named in `loads`; any other is
    /// generated, is live at once and is named in `spawned`. The order of
    /// the viewers has no part in the outcome.
    pub fn load_deload_chunks(
        &mut self,
        viewers: &Vec<IVec2>,
        view_distance: ViewDistance,
        stored: &Vec<IVec2>,
    ) -> (step: Resolution)
        ensures
            final(self)@ == resolved(old(self)@, viewers@, view_distance, stored@.to_set()),
            step.answers(old(self)@, viewers@, view_distance, stored@.to_set()),
    {
        proof {
            use_type_invariant(&*self);
        }
        let list = visible_chunk_indices(viewers, view_distance);
        let ghost c0 = self.chunks@;
        let ghost l0 = self.loading@;
        let ghost before = self@;
        let mut chunks: Vec<ChunkData> = Vec::new();
        let mut loading: Vec<IVec2> = Vec::new();
        proof {
            lemma_nothing_live(l0);
            lemma_nothing_live(Seq::<IVec2>::empty());
        }
        core::mem::swap(&mut self.chunks, &mut chunks);
        core::mem::swap(&mut self.loading, &mut loading);
        let saves = evict_unlisted(&mut chunks, &list, Ghost(l0));
        let ghost c1 = chunks@;
        let (loads, spawned) = bring_in_listed(&mut chunks, &mut loading, &list, stored);
        let step = Resolution { saves, loads, spawned };
        let ghost c2 = chunks@;
        let ghost l2 = loading@;
        proof {
            lemma_nothing_loading(c2);
        }
        self.chunks = chunks;
        self.loading = loading;
        proof {
            let want = resolved(before, viewers@, view_distance, stored@.to_set());
            // What is live after the first half: the chunks of before that are seen.
            assert forall|index: IVec2| has_chunk(c1, index) <==> (has_chunk(c0, index)
                && list@.contains(index)) by {
                if has_chunk(c1, index) {
                    let k = chunk_place(c1, index);
                    let m = choose|m: int| 0 <= m < c0.len() && c0[m] == c1[k];
                    assert(c0[m].chunk_index == index);
                }
                if has_chunk(c0, index) && list@.contains(index) {
                    let m = chunk_place(c0, index);
                    assert(c1.contains(c0[m]));
                    let k = choose|k: int| 0 <= k < c1.len() && c1[k] == c0[m];
                    assert(c1[k].chunk_index == index);
                }
            }
            assert forall|index: IVec2| has_chunk(c2, index) <==> has_chunk(c1, index)
                || step.spawned@.contains(index) by {
                if has_chunk(c2, index) {
                    let k = chunk_place(c2, index);
                    if k < c1.len() {
                        assert(c1[k].chunk_index == index);
                    } else {
                        assert(c2[c1.len() + (k - c1.len())].chunk_index == step.spawned@[k
                            - c1.len()]);
                    }
                }
                if has_chunk(c1, index) {
                    let k = chunk_place(c1, index);
                    assert(c2[k].chunk_index == index);
                }
                if step.spawned@.contains(index) {
                    let j = choose|j: int|
                        0 <= j < step.spawned@.len() && step.spawned@[j] == index;
                    assert(c2[c1.len() + j].chunk_index == index);
                }
            }
            assert forall|index: IVec2| #[trigger]
                self@.chunks.contains_key(index) == want.chunks.contains_key(index) by {}
            assert forall|index: IVec2| #[trigger] self@.chunks.contains_key(index) implies 
                self@.chunks[index] == want.chunks[index] by {
                let k = chunk_place(c2, index);
                lemma_chunk_map_at(c2, k);
                if k < c1.len() {
                    let m = choose|m: int| 0 <= m < c0.len() && c0[m] == c1[k];
                    lemma_chunk_map_at(c0, m);
                } else {
                    assert(c2[c1.len() + (k - c1.len())].chunk_index == step.spawned@[k
                        - c1.len()]);
                    assert(step.spawned@.contains(index));
                }
            }
            assert(self@.chunks =~= want.chunks);
            assert forall|index: IVec2|
                self@.loading.contains(index) == want.loading.contains(index) by {
                vstd::seq_lib::lemma_seq_concat_contains_all_elements(l0, step.loads@, index);
            }
            assert(self@.loading =~= want.loading);
            // The saves are the stale chunks, as they were.
            assert forall|k: int| 0 <= k < step.saves@.len() implies stale(
                before,
                (#[trigger] step.saves@[k]).chunk_index,
                viewers@,
                view_distance,
            ) && step.saves@[k].tiles@ == before.chunks[step.saves@[k].chunk_index] by {
                let m = choose|m: int| 0 <= m < c0.len() && c0[m] == step.saves@[k];
                lemma_chunk_map_at(c0, m);
            }
            assert forall|index: IVec2|
                stale(before, index, viewers@, view_distance) implies exists|k: int|
                0 <= k < step.saves@.len() && (#[trigger] step.saves@[k]).chunk_index == index by {
                let m = chunk_place(c0, index);
                assert(c0[m].chunk_index == index);
                assert(step.saves@.contains(c0[m]));
                let k = choose|k: int| 0 <= k < step.saves@.len() && step.saves@[k] == c0[m];
                assert(step.saves@[k].chunk_index == index);
            }
        }
        step
    }

    /// No chunk is live twice: there is one live copy of a chunk that is
    /// live, and none of any other.
    pub proof fn lemma_no_duplicate_residency(&self, index: IVec2)
        requires
            self.wf(),
        ensures
            self.live_count(index) <= 1,
            self.live_count(index) == 1 <==> self@.chunks.contains_key(index),
    {
        lemma_count_index(self.chunks@, index);
    }

    /// A chunk is never live and being loaded at once, and the tiles of a
    /// live chunk are well formed.
    pub proof fn lemma_states_apart(&self)
        requires
            self.wf(),
        ensures
            self@.states_apart(),
            forall|index: IVec2|
                self@.chunks.contains_key(index) ==> tiles_well_formed(
                    #[trigger] self@.chunks[index],
                ),
    {
        assert forall|index: IVec2| self@.chunks.contains_key(index) implies tiles_well_formed(
            #[trigger] self@.chunks[index],
        ) by {
            let k = chunk_place(self.chunks@, index);
            lemma_chunk_map_at(self.chunks@, k);
        }
    }

    /// Counts the live copies of the chunk at `index`: one where the chunk
    /// is live, and none otherwise.
    pub fn live_copies(&self, index: IVec2) -> (count: usize)
        ensures
            count == self.live_count(index),
            count <= 1,
            count == 1 <==> self@.chunks.contains_key(index),
    {
        proof {
            use_type_invariant(&*self);
            self.lemma_no_duplicate_residency(index);
        }
        let n: usize = self.chunks.len();
        let mut count: usize = 0;
        let mut k: usize = 0;
        assert(self.chunks@.subrange(0, 0) =~= Seq::<ChunkData>::empty());
        while k < n
            invariant
                n == self.chunks@.len(),
                k <= n,
                count <= k,
                count == count_index(self.chunks@.subrange(0, k as int), index),
            decreases n - k,
        {
            proof {
                let more = self.chunks@.subrange(0, k as int + 1);
                assert(more.drop_last() =~= self.chunks@.subrange(0, k as int));
                assert(more.last() == self.chunks@[k as int]);
            }
            if self.chunks[k].chunk_index.x == index.x && self.chunks[k].chunk_index.y == index.y {
                count += 1;
            }
            k += 1;
        }
        assert(self.chunks@.subrange(0, n as int) =~= self.chunks@);
        count
    }

    /// Tests whether the chunk at `index` is live.
    pub fn is_resident(&self, index: IVec2) -> (live: bool)
        ensures
            live == self@.chunks.contains_key(index),
    {
        find_chunk(&self.chunks, index).is_some()
    }

    /// Tests whether the chunk at `index` is being loaded.
    pub fn is_loading(&self, index: IVec2) -> (pending: bool)
        ensures
            pending == self@.loading.contains(index),
    {
        contains_index(&self.loading, index)
    }

    /// Tells where the chunk at `index` stands.
    pub fn state(&self, index: IVec2) -> (state: ChunkState)
        ensures
            state == self@.state(index),
    {
        if self.is_resident(index) {
            ChunkState::Resident
        } else if self.is_loading(index) {
            ChunkState::PendingLoad
        } else {
            ChunkState::Unloaded
        }
    }

    /// Lists the live chunks by their indices, each once.
    pub fn resident(&self) -> (indices: Vec<IVec2>)
        ensures
            indices@.no_duplicates(),
            forall|index: IVec2|
                #![trigger indices@.contains(index)]
                #![trigger self@.chunks.contains_key(index)]
                indices@.contains(index) <==> self@.chunks.contains_key(index),
    {
        proof {
            use_type_invariant(&*self);
        }
        let mut indices: Vec<IVec2> = Vec::new();
        let n: usize = self.chunks.len();
        let mut k: usize = 0;
        while k < n
            invariant
                n == self.chunks@.len(),
                k <= n,
                chunks_distinct(self.chunks@),
                indices@.len() == k,
                forall|i: int| 0 <= i < k ==> indices@[i] == (#[trigger] self.chunks@[i]).chunk_index,
            decreases n - k,
        {
            indices.push(self.chunks[k].chunk_index);
            k += 1;
        }
        proof {
            assert forall|a: int, b: int| 0 <= a < b < indices@.len() implies indices@[a]
                != indices@[b] by {
                assert(self.chunks@[a].chunk_index != self.chunks@[b].chunk_index);
            }
            assert forall|index: IVec2|
                #![trigger indices@.contains(index)]
                #![trigger self@.chunks.contains_key(index)]
                indices@.contains(index) <==> self@.chunks.contains_key(index) by {
                if indices@.contains(index) {
                    let a = choose|a: int| 0 <= a < indices@.len() && indices@[a] == index;
                    assert(self.chunks@[a].chunk_index == index);
                }
                if has_chunk(self.chunks@, index) {
                    let a = chunk_place(self.chunks@, index);
                    assert(indices@[a] == index);
                }
            }
        }
        indices
    }

    /// Lists the indices of the chunks that are being loaded, each once.
    pub fn loading(&self) -> (indices: Vec<IVec2>)
        ensures
            indices@.no_duplicates(),
            indices@.to_set() == self@.loading,
    {
        proof {
            use_type_invariant(&*self);
        }
        let mut indices: Vec<IVec2> = Vec::new();
        let n: usize = self.loading.len();
        let mut k: usize = 0;
        while k < n
            invariant
                n == self.loading@.len(),
                k <= n,
                indices@ == self.loading@.subrange(0, k as int),
            decreases n - k,
        {
            indices.push(self.loading[k]);
            assert(indices@ =~= self.loading@.subrange(0, k as int + 1));
            k += 1;
        }
        assert(indices@ =~= self.loading@);
        indices
    }

    /// Hands out a copy of what the live chunk at `index` holds now, as it
    /// would be saved; nothing where no such chunk is live.
    pub fn extract_chunk_data(&self, index: IVec2) -> (data: Option<ChunkData>)
        ensures
            match data {
                Some(chunk) => self@.chunks.contains_key(index) && chunk@.chunk_index == index
                    && chunk@.tiles == self@.chunks[index],
                None => !self@.chunks.contains_key(index),
            },
    {
        proof {
            use_type_invariant(&*self);
        }
        match find_chunk(&self.chunks, index) {
            Some(k) => {
                proof {
                    lemma_chunk_map_at(self.chunks@, k as int);
                }
                Some(self.chunks[k].snapshot())
            },
            None => None,
        }
    }

    /// Makes `data` a live chunk. It is turned down, and the world stays as
    /// it is, where its tiles are not well formed or where a chunk with its
    /// index is live or being loaded already.
    pub fn spawn_chunk_stub(&mut self, data: ChunkData) -> (res: Result<(), SpawnError>)
        ensures
            res == if !data.well_formed() {
                Err::<(), SpawnError>(SpawnError::Malformed)
            } else if old(self)@.chunks.contains_key(data.chunk_index) || old(
                self,
            )@.loading.contains(data.chunk_index) {
                Err(SpawnError::Duplicate)
            } else {
                Ok(())
            },
            final(self)@ == if res is Ok {
                old(self)@.with_chunk(data.chunk_index, data.tiles@)
            } else {
                old(self)@
            },
    {
        proof {
            use_type_invariant(&*self);
        }
        if !data.is_well_formed() {
            return Err(SpawnError::Malformed);
        }
        if find_chunk(&self.chunks, data.chunk_index).is_some() || contains_index(
            &self.loading,
            data.chunk_index,
        ) {
            return Err(SpawnError::Duplicate);
        }
        let ghost live = self.chunks@;
        proof {
            lemma_chunk_map_push(live, data);
            let more = live.push(data);
            assert forall|k: int| 0 <= k < more.len() implies (#[trigger] more[k]).well_formed() by {
                if k < live.len() {
                    assert(more[k] == live[k]);
                }
            }
            assert forall|index: IVec2| #[trigger] has_chunk(more, index) implies 
                !self.loading@.contains(index) by {
                lemma_has_chunk_push(live, data, index);
            }
            lemma_nothing_live(self.loading@);
        }
        let mut chunks: Vec<ChunkData> = Vec::new();
        core::mem::swap(&mut self.chunks, &mut chunks);
        chunks.push(data);
        self.chunks = chunks;
        Ok(())
    }

    /// Takes the live chunk at `index` out of the world and hands it back
    /// as it was; nothing happens where no such chunk is live.
    pub fn despawn_chunk(&mut self, index: IVec2) -> (data: Option<ChunkData>)
        ensures
            match data {
                Some(chunk) => old(self)@.chunks.contains_key(index) && chunk@.chunk_index == index
                    && chunk@.tiles == old(self)@.chunks[index] && final(self)@ == old(
                    self,
                )@.without_chunk(index),
                None => !old(self)@.chunks.contains_key(index) && final(self)@ == old(self)@,
            },
    {
        proof {
            use_type_invariant(&*self);
        }
        match find_chunk(&self.chunks, index) {
            Some(k) => {
                let ghost live = self.chunks@;
                proof {
                    lemma_chunk_map_at(live, k as int);
                    lemma_chunk_map_remove(live, k as int);
                    let less = live.remove(k as int);
                    assert forall|a: int| 0 <= a < less.len() implies (
                    #[trigger] less[a]).well_formed() by {
                        let a0 = if a < k { a } else { a + 1 };
                        assert(less[a] == live[a0]);
                    }
                    lemma_nothing_live(self.loading@);
                }
                let mut chunks: Vec<ChunkData> = Vec::new();
                core::mem::swap(&mut self.chunks, &mut chunks);
                let chunk = chunks.remove(k);
                self.chunks = chunks;
                Some(chunk)
            },
            None => None,
        }
    }

    /// Sets the ground of the tile at `tile_index` of the live chunk at
    /// `index`, and tells whether there was such a tile. Nothing changes
    /// where the chunk is not live or has no tile at that place.
    pub fn set_ground(&mut self, index: IVec2, tile_index: UVec2, ground: Ground) -> (changed: bool)
        ensures
            changed == (old(self)@.chunks.contains_key(index) && ground_in(
                old(self)@.chunks[index],
                tile_index,
            ) is Some),
            final(self)@ == if changed {
                old(self)@.with_chunk(
                    index,
                    tiles_with_ground(old(self)@.chunks[index], tile_index, ground),
                )
            } else {
                old(self)@
            },
    {
        proof {
            use_type_invariant(&*self);
        }
        let k = match find_chunk(&self.chunks, index) {
            Some(k) => k,
            None => {
                return false;
            },
        };
        proof {
            lemma_chunk_map_at(self.chunks@, k as int);
        }
        let j = match find_tile(&self.chunks[k].tiles, tile_index) {
            Some(j) => j,
            None => {
                return false;
            },
        };
        let ghost before = self.chunks@;
        proof {
            lemma_nothing_live(self.loading@);
        }
        let mut chunks: Vec<ChunkData> = Vec::new();
        core::mem::swap(&mut self.chunks, &mut chunks);
        let mut chunk = chunks.remove(k);
        proof {
            lemma_chunk_map_remove(before, k as int);
            lemma_tiles_with_ground(chunk.tiles@, tile_index, ground);
        }
        let ghost less = chunks@;
        chunk.tiles[j] = TileData { tile_index, ground };
        proof {
            lemma_chunk_map_push(less, chunk);
            let more = less.push(chunk);
            assert forall|a: int| 0 <= a < more.len() implies (#[trigger] more[a]).well_formed() by {
                if a < less.len() {
                    let a0 = if a < k { a } else { a + 1 };
                    assert(more[a] == before[a0]);
                }
            }
            assert forall|other: IVec2| #[trigger] has_chunk(more, other) implies 
                !self.loading@.contains(other) by {
                lemma_has_chunk_push(less, chunk, other);
                if other == index {
                    assert(has_chunk(before, index));
                }
            }
            assert(chunk_map(before).remove(index).insert(index, chunk.tiles@) =~= chunk_map(
                before,
            ).insert(index, chunk.tiles@));
        }
        chunks.push(chunk);
        self.chunks = chunks;
        true
    }

    /// Turns the ground under the point `position` into dirt, and tells
    /// whether a live tile lies there.
    pub fn apply_action(&mut self, position: IVec2) -> (changed: bool)
        ensures
            changed == (old(self)@.chunks.contains_key(locate_spec(position).0.chunk_index)
                && ground_in(
                old(self)@.chunks[locate_spec(position).0.chunk_index],
                UVec2 { x: locate_spec(position).1.x, y: locate_spec(position).1.y },
            ) is Some),
            final(self)@ == if changed {
                old(self)@.with_chunk(
                    locate_spec(position).0.chunk_index,
                    tiles_with_ground(
                        old(self)@.chunks[locate_spec(position).0.chunk_index],
                        UVec2 { x: locate_spec(position).1.x, y: locate_spec(position).1.y },
                        Ground::Dirt,
                    ),
                )
            } else {
                old(self)@
            },
    {
        let (chunk, place) = locate(position);
        self.set_ground(chunk.chunk_index, place.tile_index(), Ground::Dirt)
    }

    /// Lists the chunks that some viewer sees and of which the world has
    /// nothing, each once: the chunks whose backing file the next step will
    /// ask about.
    pub fn missing_chunks(&self, viewers: &Vec<IVec2>, view_distance: ViewDistance) -> (indices:
        Vec<IVec2>)
        ensures
            indices@.no_duplicates(),
            forall|index: IVec2|
                #![trigger indices@.contains(index)]
                #![trigger missing(self@, index, viewers@, view_distance)]
                indices@.contains(index) <==> missing(self@, index, viewers@, view_distance),
    {
        let list = visible_chunk_indices(viewers, view_distance);
        let mut indices: Vec<IVec2> = Vec::new();
        let n: usize = list.len();
        let mut v: usize = 0;
        while v < n
            invariant
                n == list@.len(),
                v <= n,
                indices@.no_duplicates(),
                forall|index: IVec2|
                    #![trigger indices@.contains(index)]
                    #![trigger list@.subrange(0, v as int).contains(index)]
                    indices@.contains(index) <==> list@.subrange(0, v as int).contains(index)
                        && !has_chunk(self.chunks@, index) && !self.loading@.contains(index),
            decreases n - v,
        {
            broadcast use vstd::seq_lib::lemma_seq_contains_after_push;

            let index = list[v];
            proof {
                assert(list@.subrange(0, v as int + 1) =~= list@.subrange(0, v as int).push(index));
            }
            if find_chunk(&self.chunks, index).is_none() && !contains_index(&self.loading, index)
                && !contains_index(&indices, index) {
                proof {
                    assert forall|a: int, b: int|
                        0 <= a < b < indices@.push(index).len() implies indices@.push(index)[a]
                        != indices@.push(index)[b] by {
                        if b == indices@.len() {
                            assert(indices@.contains(indices@[a]));
                        }
                    }
                }
                indices.push(index);
            }
            v += 1;
        }
        assert(list@.subrange(0, n as int) =~= list@);
        indices
    }

    /// Takes in what a poll of the task that loads the chunk at `index`
    /// found: nothing yet, or the outcome of the load.
    ///
    /// Where no load is under way for the chunk, the outcome is turned down
    /// and the world stays as it is. Where the task has nothing yet, the
    /// chunk goes on being loaded. In every other case the load is over: the
    /// chunk is live where the task brought it, with the index asked for and
    /// well formed tiles, and is neither live nor being loaded where the
    /// task failed, so that the next step asks for it again.
    pub fn task_poll(&mut self, index: IVec2, outcome: Option<Result<ChunkData, LoadError>>) -> (res:
        Result<ChunkState, LoadError>)
        ensures
            res == task_poll_result(old(self)@, index, outcome),
            final(self)@ == task_poll_world(old(self)@, index, outcome),
    {
        proof {
            use_type_invariant(&*self);
        }
        let place = match find_index(&self.loading, index) {
            Some(p) => p,
            None => {
                return Err(LoadError::DuplicateLoad);
            },
        };
        let outcome = match outcome {
            Some(o) => o,
            None => {
                return Ok(ChunkState::PendingLoad);
            },
        };
        let ghost live = self.chunks@;
        let ghost pending = self.loading@;
        proof {
            lemma_index_list_remove(pending, place as int);
            assert(!has_chunk(live, index));
            lemma_nothing_loading(live);
            assert forall|other: IVec2| #[trigger] has_chunk(live, other) implies !pending.remove(
                place as int,
            ).contains(other) by {
                if pending.remove(place as int).contains(other) {
                    assert(pending.remove(place as int).to_set().contains(other));
                    assert(pending.to_set().contains(other));
                }
            }
        }
        let mut loading: Vec<IVec2> = Vec::new();
        core::mem::swap(&mut self.loading, &mut loading);
        loading.remove(place);
        self.loading = loading;
        let chunk = match outcome {
            Ok(chunk) => chunk,
            Err(error) => {
                return Err(error);
            },
        };
        if chunk.chunk_index.x != index.x || chunk.chunk_index.y != index.y
            || !chunk.is_well_formed() {
            return Err(LoadError::Decode);
        }
        proof {
            lemma_chunk_map_push(live, chunk);
            let more = live.push(chunk);
            assert forall|k: int| 0 <= k < more.len() implies (#[trigger] more[k]).well_formed() by {
                if k < live.len() {
                    assert(more[k] == live[k]);
                }
            }
            assert forall|other: IVec2| #[trigger] has_chunk(more, other) implies 
                !self.loading@.contains(other) by {
                lemma_has_chunk_push(live, chunk, other);
                if other == index {
                    assert(!self.loading@.to_set().contains(index));
                }
            }
            lemma_nothing_live(self.loading@);
        }
        let mut chunks: Vec<ChunkData> = Vec::new();
        core::mem::swap(&mut self.chunks, &mut chunks);
        chunks.push(chunk);
        self.chunks = chunks;
        Ok(ChunkState::Resident)
    }
}

} // verus!
