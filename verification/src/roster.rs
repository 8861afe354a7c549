//! Lists of live chunks and of chunks that are being loaded: what the live
//! world is made of, and the two halves of its step.

use crate::chunk::{gen_chunk, generated_tiles, ChunkData, TileData};
use crate::math::IVec2;
use crate::visibility::contains_index;
use vstd::prelude::*;

verus! {

/// Whether a chunk with `index` is among `chunks`.
pub(crate) open spec fn has_chunk(chunks: Seq<ChunkData>, index: IVec2) -> bool {
    exists|k: int| 0 <= k < chunks.len() && (#[trigger] chunks[k]).chunk_index == index
}

/// A place in `chunks` of a chunk with `index`, where there is one.
pub(crate) open spec fn chunk_place(chunks: Seq<ChunkData>, index: IVec2) -> int {
    choose|k: int| 0 <= k < chunks.len() && (#[trigger] chunks[k]).chunk_index == index
}

/// Whether no two of `chunks` have the same index.
pub(crate) open spec fn chunks_distinct(chunks: Seq<ChunkData>) -> bool {
    forall|j: int, k: int|
        0 <= j < k < chunks.len() ==> (#[trigger] chunks[j]).chunk_index != (
        #[trigger] chunks[k]).chunk_index
}

/// Whether the tiles of each of `chunks` are well formed.
pub(crate) open spec fn chunks_well_formed(chunks: Seq<ChunkData>) -> bool {
    forall|k: int| 0 <= k < chunks.len() ==> (#[trigger] chunks[k]).well_formed()
}

/// The tiles of each of `chunks`, by the chunk's index.
pub(crate) open spec fn chunk_map(chunks: Seq<ChunkData>) -> Map<IVec2, Seq<TileData>> {
    Map::new(
        |index: IVec2| has_chunk(chunks, index),
        |index: IVec2| chunks[chunk_place(chunks, index)].tiles@,
    )
}

/// How often a chunk with `index` occurs among `chunks`.
pub(crate) open spec fn count_index(chunks: Seq<ChunkData>, index: IVec2) -> nat
    decreases chunks.len(),
{
    if chunks.len() == 0 {
        0
    } else {
        count_index(chunks.drop_last(), index) + if chunks.last().chunk_index == index {
            1nat
        } else {
            0nat
        }
    }
}

/// Whether `chunks` can be the live chunks of a world in which the chunks of
/// `loading` are being loaded: no index occurs twice in either list or in
/// both, and the tiles of each chunk are well formed.
pub(crate) open spec fn sound(chunks: Seq<ChunkData>, loading: Seq<IVec2>) -> bool {
    &&& chunks_distinct(chunks)
    &&& chunks_well_formed(chunks)
    &&& loading.no_duplicates()
    &&& forall|index: IVec2| #[trigger] has_chunk(chunks, index) ==> !loading.contains(index)
}

/// In a list of chunks with distinct indices, the map holds each chunk's
/// tiles under the chunk's index.
pub(crate) proof fn lemma_chunk_map_at(chunks: Seq<ChunkData>, k: int)
    requires
        chunks_distinct(chunks),
        0 <= k < chunks.len(),
    ensures
        has_chunk(chunks, chunks[k].chunk_index),
        chunk_place(chunks, chunks[k].chunk_index) == k,
        chunk_map(chunks).contains_key(chunks[k].chunk_index),
        chunk_map(chunks)[chunks[k].chunk_index] == chunks[k].tiles@,
{
    let index = chunks[k].chunk_index;
    let p = chunk_place(chunks, index);
    assert(0 <= p < chunks.len() && chunks[p].chunk_index == index);
    if p < k {
        assert(chunks[p].chunk_index != chunks[k].chunk_index);
    } else if k < p {
        assert(chunks[k].chunk_index != chunks[p].chunk_index);
    }
}

/// The chunks after one more was added are those of before and the new one.
pub(crate) proof fn lemma_has_chunk_push(chunks: Seq<ChunkData>, chunk: ChunkData, index: IVec2)
    ensures
        has_chunk(chunks.push(chunk), index) <==> has_chunk(chunks, index) || chunk.chunk_index
            == index,
{
    let more = chunks.push(chunk);
    if has_chunk(chunks, index) {
        let k = chunk_place(chunks, index);
        assert(more[k].chunk_index == index);
    }
    if chunk.chunk_index == index {
        assert(more[chunks.len() as int].chunk_index == index);
    }
    if has_chunk(more, index) {
        let k = chunk_place(more, index);
        if k < chunks.len() {
            assert(chunks[k].chunk_index == index);
        }
    }
}

/// Adding a chunk with a new index adds its tiles to the map.
pub(crate) proof fn lemma_chunk_map_push(chunks: Seq<ChunkData>, chunk: ChunkData)
    requires
        chunks_distinct(chunks),
        !has_chunk(chunks, chunk.chunk_index),
    ensures
        chunks_distinct(chunks.push(chunk)),
        chunk_map(chunks.push(chunk)) == chunk_map(chunks).insert(chunk.chunk_index, chunk.tiles@),
{
    let more = chunks.push(chunk);
    assert forall|a: int, b: int| 0 <= a < b < more.len() implies (#[trigger] more[a]).chunk_index
        != (#[trigger] more[b]).chunk_index by {
        if b == chunks.len() {
            assert(more[a] == chunks[a]);
        } else {
            assert(more[a] == chunks[a] && more[b] == chunks[b]);
        }
    }
    let want = chunk_map(chunks).insert(chunk.chunk_index, chunk.tiles@);
    assert forall|index: IVec2| #[trigger]
        chunk_map(more).contains_key(index) == want.contains_key(index) by {
        lemma_has_chunk_push(chunks, chunk, index);
    }
    assert forall|index: IVec2| #[trigger] chunk_map(more).contains_key(index) implies chunk_map(
        more,
    )[index] == want[index] by {
        let k = chunk_place(more, index);
        lemma_chunk_map_at(more, k);
        if k < chunks.len() {
            assert(more[k] == chunks[k]);
            lemma_chunk_map_at(chunks, k);
        }
    }
    assert(chunk_map(more) =~= want);
}

/// Taking a chunk out takes its index out of the map and leaves the rest.
pub(crate) proof fn lemma_chunk_map_remove(chunks: Seq<ChunkData>, k: int)
    requires
        chunks_distinct(chunks),
        0 <= k < chunks.len(),
    ensures
        chunks_distinct(chunks.remove(k)),
        !has_chunk(chunks.remove(k), chunks[k].chunk_index),
        chunk_map(chunks.remove(k)) == chunk_map(chunks).remove(chunks[k].chunk_index),
        forall|index: IVec2|
            #![trigger has_chunk(chunks.remove(k), index)]
            has_chunk(chunks.remove(k), index) <==> has_chunk(chunks, index) && index
                != chunks[k].chunk_index,
{
    let less = chunks.remove(k);
    let gone = chunks[k].chunk_index;
    assert forall|a: int| 0 <= a < less.len() implies #[trigger] less[a] == chunks[if a < k {
        a
    } else {
        a + 1
    }] by {}
    assert forall|a: int, b: int| 0 <= a < b < less.len() implies (#[trigger] less[a]).chunk_index
        != (#[trigger] less[b]).chunk_index by {
        let a0 = if a < k { a } else { a + 1 };
        let b0 = if b < k { b } else { b + 1 };
        assert(less[a] == chunks[a0] && less[b] == chunks[b0]);
    }
    assert forall|index: IVec2| #![trigger has_chunk(less, index)]
        has_chunk(less, index) <==> has_chunk(chunks, index) && index != gone by {
        if has_chunk(less, index) {
            let a = chunk_place(less, index);
            let a0 = if a < k { a } else { a + 1 };
            assert(less[a] == chunks[a0]);
            assert(chunks[a0].chunk_index == index);
            if a0 < k {
                assert(chunks[a0].chunk_index != chunks[k].chunk_index);
            } else {
                assert(chunks[k].chunk_index != chunks[a0].chunk_index);
            }
        }
        if has_chunk(chunks, index) && index != gone {
            let a0 = chunk_place(chunks, index);
            let a = if a0 < k { a0 } else { a0 - 1 };
            assert(less[a] == chunks[a0]);
            assert(less[a].chunk_index == index);
        }
    }
    let want = chunk_map(chunks).remove(gone);
    assert forall|index: IVec2| #[trigger]
        chunk_map(less).contains_key(index) == want.contains_key(index) by {}
    assert forall|index: IVec2| #[trigger] chunk_map(less).contains_key(index) implies chunk_map(
        less,
    )[index] == want[index] by {
        let a = chunk_place(less, index);
        lemma_chunk_map_at(less, a);
        let a0 = if a < k { a } else { a + 1 };
        assert(less[a] == chunks[a0]);
        lemma_chunk_map_at(chunks, a0);
    }
    assert(chunk_map(less) =~= want);
}

/// Taking an index out of a list without repeats takes it out of the set
/// of the list's indices and leaves the rest.
pub(crate) proof fn lemma_index_list_remove(list: Seq<IVec2>, k: int)
    requires
        list.no_duplicates(),
        0 <= k < list.len(),
    ensures
        list.remove(k).no_duplicates(),
        list.remove(k).to_set() == list.to_set().remove(list[k]),
{
    let less = list.remove(k);
    assert forall|a: int| 0 <= a < less.len() implies #[trigger] less[a] == list[if a < k {
        a
    } else {
        a + 1
    }] by {}
    assert forall|a: int, b: int| 0 <= a < b < less.len() implies less[a] != less[b] by {
        let a0 = if a < k { a } else { a + 1 };
        let b0 = if b < k { b } else { b + 1 };
        assert(less[a] == list[a0] && less[b] == list[b0]);
    }
    assert forall|index: IVec2|
        less.to_set().contains(index) == list.to_set().remove(list[k]).contains(index) by {
        if less.contains(index) {
            let a = choose|a: int| 0 <= a < less.len() && less[a] == index;
            let a0 = if a < k { a } else { a + 1 };
            assert(less[a] == list[a0]);
            assert(list.contains(index));
        }
        if list.contains(index) && index != list[k] {
            let a0 = choose|a0: int| 0 <= a0 < list.len() && list[a0] == index;
            let a = if a0 < k { a0 } else { a0 - 1 };
            assert(less[a] == index);
        }
    }
    assert(less.to_set() =~= list.to_set().remove(list[k]));
}

/// Among chunks with distinct indices an index occurs once or not at all.
pub(crate) proof fn lemma_count_index(chunks: Seq<ChunkData>, index: IVec2)
    requires
        chunks_distinct(chunks),
    ensures
        count_index(chunks, index) == if has_chunk(chunks, index) {
            1nat
        } else {
            0nat
        },
    decreases chunks.len(),
{
    if chunks.len() > 0 {
        let less = chunks.drop_last();
        assert forall|j: int, k: int| 0 <= j < k < less.len() implies (
        #[trigger] less[j]).chunk_index != (#[trigger] less[k]).chunk_index by {
            assert(less[j] == chunks[j] && less[k] == chunks[k]);
        }
        lemma_count_index(less, index);
        if has_chunk(less, index) {
            let k = chunk_place(less, index);
            assert(chunks[k].chunk_index == index);
            assert(chunks[k].chunk_index != chunks[chunks.len() - 1].chunk_index);
        }
        if chunks.last().chunk_index == index {
            assert(chunks[chunks.len() - 1].chunk_index == index);
        }
        if has_chunk(chunks, index) && chunks.last().chunk_index != index {
            let k = chunk_place(chunks, index);
            assert(less[k].chunk_index == index);
        }
    }
}

/// A world with no live chunk is sound.
pub(crate) proof fn lemma_nothing_live(loading: Seq<IVec2>)
    requires
        loading.no_duplicates(),
    ensures
        sound(Seq::<ChunkData>::empty(), loading),
{
}

/// A world in which nothing is being loaded is sound.
pub(crate) proof fn lemma_nothing_loading(chunks: Seq<ChunkData>)
    requires
        chunks_distinct(chunks),
        chunks_well_formed(chunks),
    ensures
        sound(chunks, Seq::<IVec2>::empty()),
{
}

/// Finds the chunk at `index` in a list of chunks.
pub(crate) fn find_chunk(chunks: &Vec<ChunkData>, index: IVec2) -> (place: Option<usize>)
    ensures
        match place {
            Some(k) => k < chunks.len() && chunks@[k as int].chunk_index == index,
            None => !has_chunk(chunks@, index),
        },
{
    let n: usize = chunks.len();
    let mut k: usize = 0;
    while k < n
        invariant
            n == chunks.len(),
            k <= n,
            forall|i: int| 0 <= i < k ==> (#[trigger] chunks@[i]).chunk_index != index,
        decreases n - k,
    {
        if chunks[k].chunk_index.x == index.x && chunks[k].chunk_index.y == index.y {
            return Some(k);
        }
        k += 1;
    }
    None
}

/// Finds `index` in a list of indices.
pub(crate) fn find_index(list: &Vec<IVec2>, index: IVec2) -> (place: Option<usize>)
    ensures
        match place {
            Some(k) => k < list@.len() && list@[k as int] == index,
            None => !list@.contains(index),
        },
{
    let n: usize = list.len();
    let mut k: usize = 0;
    while k < n
        invariant
            n == list@.len(),
            k <= n,
            forall|i: int| 0 <= i < k ==> list@[i] != index,
        decreases n - k,
    {
        if list[k].x == index.x && list[k].y == index.y {
            return Some(k);
        }
        k += 1;
    }
    None
}

/// Takes out of `chunks` every chunk whose index is not in `list`, and hands
/// those chunks back.
pub(crate) fn evict_unlisted(
    chunks: &mut Vec<ChunkData>,
    list: &Vec<IVec2>,
    Ghost(loading): Ghost<Seq<IVec2>>,
) -> (saves: Vec<ChunkData>)
    requires
        sound(old(chunks)@, loading),
    ensures
        sound(final(chunks)@, loading),
        chunks_distinct(saves@),
        forall|k: int|
            0 <= k < final(chunks)@.len() ==> old(chunks)@.contains(#[trigger] final(chunks)@[k])
                && list@.contains(final(chunks)@[k].chunk_index),
        forall|k: int|
            0 <= k < saves@.len() ==> old(chunks)@.contains(#[trigger] saves@[k])
                && !list@.contains(saves@[k].chunk_index),
        forall|m: int|
            0 <= m < old(chunks)@.len() ==> if list@.contains(
                (#[trigger] old(chunks)@[m]).chunk_index,
            ) {
                final(chunks)@.contains(old(chunks)@[m])
            } else {
                saves@.contains(old(chunks)@[m])
            },
{
    let mut saves: Vec<ChunkData> = Vec::new();
    let ghost before = chunks@;
    let ghost n = before.len() as int;
    let ghost mut p: int = 0;
    let ghost mut saved_at: Seq<int> = Seq::empty();
    let mut k: usize = 0;
    while k < chunks.len()
        invariant
            before == old(chunks)@,
            n == before.len(),
            chunks_distinct(before),
            sound(before, loading),
            sound(chunks@, loading),
            0 <= p <= n,
            k <= chunks@.len(),
            chunks@.len() == k + n - p,
            forall|j: int| k <= j < chunks@.len() ==> chunks@[j] == before[j - k + p],
            forall|j: int|
                0 <= j < k ==> before.contains(#[trigger] chunks@[j]) && list@.contains(
                    chunks@[j].chunk_index,
                ),
            chunks_distinct(chunks@),
            chunks_distinct(saves@),
            saved_at.len() == saves@.len(),
            forall|j: int|
                0 <= j < saves@.len() ==> 0 <= #[trigger] saved_at[j] < p && saves@[j]
                    == before[saved_at[j]] && !list@.contains(saves@[j].chunk_index),
            forall|m: int|
                0 <= m < p ==> if list@.contains((#[trigger] before[m]).chunk_index) {
                    chunks@.contains(before[m])
                } else {
                    saves@.contains(before[m])
                },
        decreases n - p,
    {
        let ghost here = chunks@;
        assert(here[k as int] == before[p]);
        if contains_index(list, chunks[k].chunk_index) {
            k += 1;
            proof {
                assert(before.contains(here[k - 1]));
                assert(here.contains(before[p]));
                p = p + 1;
            }
        } else {
            let chunk = chunks.remove(k);
            proof {
                let after = chunks@;
                assert(chunk == before[p]);
                assert(after =~= here.remove(k as int));
                assert forall|a: int, b: int| 0 <= a < b < after.len() implies (
                #[trigger] after[a]).chunk_index != (#[trigger] after[b]).chunk_index by {
                    let a0 = if a < k { a } else { a + 1 };
                    let b0 = if b < k { b } else { b + 1 };
                    assert(after[a] == here[a0] && after[b] == here[b0]);
                }
                let saved = saves@.push(chunk);
                assert forall|a: int, b: int| 0 <= a < b < saved.len() implies (
                #[trigger] saved[a]).chunk_index != (#[trigger] saved[b]).chunk_index by {
                    if b < saves@.len() {
                        assert(saved[a] == saves@[a] && saved[b] == saves@[b]);
                    } else {
                        assert(saved[a] == before[saved_at[a]]);
                        assert(before[saved_at[a]].chunk_index != before[p].chunk_index);
                    }
                }
                assert forall|m: int| 0 <= m < p + 1 implies if list@.contains(
                    (#[trigger] before[m]).chunk_index,
                ) {
                    after.contains(before[m])
                } else {
                    saved.contains(before[m])
                } by {
                    if m == p {
                        assert(saved[saves@.len() as int] == before[m]);
                    } else if list@.contains(before[m].chunk_index) {
                        let j = choose|j: int| 0 <= j < here.len() && here[j] == before[m];
                        assert(before[m].chunk_index != before[p].chunk_index);
                        assert(j != k);
                        let j1 = if j < k { j } else { j - 1 };
                        assert(after[j1] == before[m]);
                    } else {
                        let j = choose|j: int| 0 <= j < saves@.len() && saves@[j] == before[m];
                        assert(saved[j] == before[m]);
                    }
                }
                assert forall|j: int| 0 <= j < k implies before.contains(#[trigger] after[j])
                    && list@.contains(after[j].chunk_index) by {
                    assert(after[j] == here[j]);
                }
                lemma_chunk_map_remove(here, k as int);
                assert forall|a: int| 0 <= a < after.len() implies (
                #[trigger] after[a]).well_formed() by {
                    let a0 = if a < k { a } else { a + 1 };
                    assert(after[a] == here[a0]);
                }
                saved_at = saved_at.push(p);
                p = p + 1;
            }
            saves.push(chunk);
        }
    }
    proof {
        assert forall|j: int| 0 <= j < saves@.len() implies before.contains(#[trigger] saves@[j])
            && !list@.contains(saves@[j].chunk_index) by {
            assert(saves@[j] == before[saved_at[j]]);
        }
    }
    saves
}

/// Brings in each chunk of `list` that is neither in `chunks` nor in
/// `loading`: one with a backing file, by `stored`, joins `loading`; any
/// other is generated and joins `chunks`. Hands back the indices of the
/// first and of the second sort.
pub(crate) fn bring_in_listed(
    chunks: &mut Vec<ChunkData>,
    loading: &mut Vec<IVec2>,
    list: &Vec<IVec2>,
    stored: &Vec<IVec2>,
) -> (out: (Vec<IVec2>, Vec<IVec2>))
    requires
        sound(old(chunks)@, old(loading)@),
    ensures
        sound(final(chunks)@, final(loading)@),
        final(chunks)@.len() == old(chunks)@.len() + out.1@.len(),
        forall|j: int| 0 <= j < old(chunks)@.len() ==> final(chunks)@[j] == old(chunks)@[j],
        forall|j: int|
            0 <= j < out.1@.len() ==> (#[trigger] final(chunks)@[old(chunks)@.len() + j]).chunk_index
                == out.1@[j] && final(chunks)@[old(chunks)@.len() + j].tiles@ == generated_tiles(),
        final(loading)@ == old(loading)@ + out.0@,
        out.0@.no_duplicates(),
        out.1@.no_duplicates(),
        forall|index: IVec2|
            #![trigger out.0@.contains(index)]
            #![trigger list@.contains(index)]
            out.0@.contains(index) <==> list@.contains(index) && !has_chunk(old(chunks)@, index)
                && !old(loading)@.contains(index) && stored@.contains(index),
        forall|index: IVec2|
            #![trigger out.1@.contains(index)]
            #![trigger list@.contains(index)]
            out.1@.contains(index) <==> list@.contains(index) && !has_chunk(old(chunks)@, index)
                && !old(loading)@.contains(index) && !stored@.contains(index),
{
    broadcast use vstd::seq_lib::lemma_seq_contains_after_push;
    broadcast use vstd::seq_lib::lemma_seq_concat_contains_all_elements;

    let mut loads: Vec<IVec2> = Vec::new();
    let mut spawned: Vec<IVec2> = Vec::new();
    let ghost c0 = chunks@;
    let ghost l0 = loading@;
    assert(loading@ =~= l0 + loads@);
    let n: usize = list.len();
    let mut v: usize = 0;
    while v < n
        invariant
            n == list.len(),
            v <= n,
            c0 == old(chunks)@,
            l0 == old(loading)@,
            sound(c0, l0),
            sound(chunks@, loading@),
            chunks@.len() == c0.len() + spawned@.len(),
            forall|j: int| 0 <= j < c0.len() ==> chunks@[j] == c0[j],
            forall|j: int|
                0 <= j < spawned@.len() ==> (#[trigger] chunks@[c0.len() + j]).chunk_index
                    == spawned@[j] && chunks@[c0.len() + j].tiles@ == generated_tiles(),
            loading@ == l0 + loads@,
            loads@.no_duplicates(),
            spawned@.no_duplicates(),
            forall|index: IVec2|
                #![trigger has_chunk(chunks@, index)]
                #![trigger spawned@.contains(index)]
                has_chunk(chunks@, index) <==> has_chunk(c0, index) || spawned@.contains(index),
            forall|index: IVec2|
                #![trigger loads@.contains(index)]
                #![trigger list@.subrange(0, v as int).contains(index)]
                loads@.contains(index) <==> list@.subrange(0, v as int).contains(index)
                    && !has_chunk(c0, index) && !l0.contains(index) && stored@.contains(index),
            forall|index: IVec2|
                #![trigger spawned@.contains(index)]
                #![trigger list@.subrange(0, v as int).contains(index)]
                spawned@.contains(index) <==> list@.subrange(0, v as int).contains(index)
                    && !has_chunk(c0, index) && !l0.contains(index) && !stored@.contains(index),
        decreases n - v,
    {
        broadcast use vstd::seq_lib::lemma_seq_contains_after_push;
        broadcast use vstd::seq_lib::lemma_seq_concat_contains_all_elements;

        let index = list[v];
        let ghost seen = list@.subrange(0, v as int);
        let ghost seen_next = list@.subrange(0, v as int + 1);
        proof {
            assert(seen_next =~= seen.push(index));
            assert forall|other: IVec2|
                seen_next.contains(other) <==> seen.contains(other) || other == index by {}
            assert forall|other: IVec2|
                loading@.contains(other) <==> l0.contains(other) || loads@.contains(other) by {}
        }
        let live = find_chunk(chunks, index);
        let pending = contains_index(loading, index);
        if live.is_none() && !pending {
            if contains_index(stored, index) {
                proof {
                    assert(!loads@.contains(index));
                    assert(!loading@.contains(index));
                    assert(loading@.push(index) =~= l0 + loads@.push(index));
                    assert forall|i: int, j: int|
                        0 <= i < j < loading@.push(index).len() implies loading@.push(index)[i]
                        != loading@.push(index)[j] by {
                        if j == loading@.len() {
                            assert(loading@.contains(loading@[i]));
                        }
                    }
                    assert forall|i: int, j: int|
                        0 <= i < j < loads@.push(index).len() implies loads@.push(index)[i]
                        != loads@.push(index)[j] by {
                        if j == loads@.len() {
                            assert(loads@.contains(loads@[i]));
                        }
                    }
                }
                loading.push(index);
                loads.push(index);
            } else {
                let chunk = gen_chunk(index);
                proof {
                    let more = chunks@.push(chunk);
                    assert(!spawned@.contains(index));
                    assert forall|other: IVec2|
                        has_chunk(more, other) <==> has_chunk(c0, other) || spawned@.push(
                            index,
                        ).contains(other) by {
                        lemma_has_chunk_push(chunks@, chunk, other);
                    }
                    assert forall|a: int, b: int| 0 <= a < b < more.len() implies (
                    #[trigger] more[a]).chunk_index != (#[trigger] more[b]).chunk_index by {
                        if b == chunks@.len() {
                            assert(more[a] == chunks@[a]);
                        } else {
                            assert(more[a] == chunks@[a] && more[b] == chunks@[b]);
                        }
                    }
                    assert forall|k: int| 0 <= k < more.len() implies (
                    #[trigger] more[k]).well_formed() by {
                        if k < chunks@.len() {
                            assert(more[k] == chunks@[k]);
                        }
                    }
                    assert forall|other: IVec2| #[trigger] has_chunk(more, other) implies 
                        !loading@.contains(other) by {
                        lemma_has_chunk_push(chunks@, chunk, other);
                    }
                    assert forall|i: int, j: int|
                        0 <= i < j < spawned@.push(index).len() implies spawned@.push(index)[i]
                        != spawned@.push(index)[j] by {
                        if j == spawned@.len() {
                            assert(spawned@.contains(spawned@[i]));
                        }
                    }
                    assert forall|j: int| 0 <= j < spawned@.push(index).len() implies (
                    #[trigger] more[c0.len() + j]).chunk_index == spawned@.push(index)[j]
                        && more[c0.len() + j].tiles@ == generated_tiles() by {
                        if j < spawned@.len() {
                            assert(more[c0.len() + j] == chunks@[c0.len() + j]);
                        }
                    }
                    assert forall|j: int| 0 <= j < c0.len() implies more[j] == c0[j] by {
                        assert(more[j] == chunks@[j]);
                    }
                }
                chunks.push(chunk);
                spawned.push(index);
            }
        } else {
            proof {
                if pending {
                    assert(l0.contains(index) || loads@.contains(index));
                } else {
                    assert(has_chunk(chunks@, index));
                }
            }

        }
        v += 1;
    }
    assert(list@.subrange(0, n as int) =~= list@);
    (loads, spawned)
}

} // verus!
