//! What holds of the steps of the live world, whatever the viewers and
//! whatever files there are.

use crate::chunk::{generated_tiles, Chunk, ChunkData, ViewDistance, TILE_LENGTH};
use crate::math::{I64Vec2, IVec2, Rect};
use crate::visibility::{visible, visible_from};
use crate::world::{
    missing, resolved, stale, task_poll_result, task_poll_world, ChunkState, LoadError,
    Resolution, WorldView,
};
use vstd::prelude::*;

verus! {

/// What a step does to one chunk. A live chunk stays live, with its tiles,
/// while some viewer sees it, and is unloaded once none does. A chunk that
/// is being loaded goes on being loaded. An unloaded chunk that comes into
/// sight is being loaded if it has a backing file and is live with
/// generated tiles if it has none; out of sight it stays unloaded.
pub proof fn lemma_step_by_state(
    world: WorldView,
    viewers: Seq<IVec2>,
    view_distance: ViewDistance,
    stored: Set<IVec2>,
    index: IVec2,
)
    requires
        world.states_apart(),
    ensures
        resolved(world, viewers, view_distance, stored).states_apart(),
        resolved(world, viewers, view_distance, stored).state(index) == match world.state(index) {
            ChunkState::Resident => if visible(index, viewers, view_distance) {
                ChunkState::Resident
            } else {
                ChunkState::Unloaded
            },
            ChunkState::PendingLoad => ChunkState::PendingLoad,
            ChunkState::Unloaded => if !visible(index, viewers, view_distance) {
                ChunkState::Unloaded
            } else if stored.contains(index) {
                ChunkState::PendingLoad
            } else {
                ChunkState::Resident
            },
        },
        world.state(index) == ChunkState::Resident && visible(index, viewers, view_distance)
            ==> resolved(world, viewers, view_distance, stored).chunks[index]
            == world.chunks[index],
        world.state(index) == ChunkState::Unloaded && visible(index, viewers, view_distance)
            && !stored.contains(index) ==> resolved(
            world,
            viewers,
            view_distance,
            stored,
        ).chunks[index] == generated_tiles(),
{
}

/// A load that fails leaves its chunk unloaded, so that the next step asks
/// for the chunk again if a viewer still sees it: it reads the backing
/// file anew where there is one, and generates the chunk where there is
/// none by then.
pub proof fn lemma_failed_load_is_asked_again(
    world: WorldView,
    index: IVec2,
    outcome: Option<Result<ChunkData, LoadError>>,
    viewers: Seq<IVec2>,
    view_distance: ViewDistance,
    stored: Set<IVec2>,
)
    requires
        world.states_apart(),
        world.loading.contains(index),
        task_poll_result(world, index, outcome) is Err,
        visible(index, viewers, view_distance),
    ensures
        task_poll_world(world, index, outcome).state(index) == ChunkState::Unloaded,
        missing(task_poll_world(world, index, outcome), index, viewers, view_distance),
        resolved(task_poll_world(world, index, outcome), viewers, view_distance, stored).state(
            index,
        ) == if stored.contains(index) {
            ChunkState::PendingLoad
        } else {
            ChunkState::Resident
        },
{
}

/// After a step nothing is left to do for the same viewers: no live chunk
/// is out of sight, and every chunk in sight is live or being loaded.
pub proof fn lemma_step_settles(
    world: WorldView,
    viewers: Seq<IVec2>,
    view_distance: ViewDistance,
    stored: Set<IVec2>,
    index: IVec2,
)
    ensures
        !stale(resolved(world, viewers, view_distance, stored), index, viewers, view_distance),
        !missing(resolved(world, viewers, view_distance, stored), index, viewers, view_distance),
{
}

/// A second step for the same viewers, with no load finished in between,
/// changes nothing and asks for nothing: the world stays as the first step
/// left it, and there is no save, no load and no generated chunk, whatever
/// files there are by then.
pub proof fn lemma_second_step_is_idle(
    world: WorldView,
    viewers: Seq<IVec2>,
    view_distance: ViewDistance,
    stored_first: Set<IVec2>,
    stored_second: Set<IVec2>,
    second: Resolution,
)
    requires
        second.answers(
            resolved(world, viewers, view_distance, stored_first),
            viewers,
            view_distance,
            stored_second,
        ),
    ensures
        resolved(
            resolved(world, viewers, view_distance, stored_first),
            viewers,
            view_distance,
            stored_second,
        ) == resolved(world, viewers, view_distance, stored_first),
        second.is_empty_spec(),
{
    let once = resolved(world, viewers, view_distance, stored_first);
    let twice = resolved(once, viewers, view_distance, stored_second);
    assert forall|index: IVec2| !stale(once, index, viewers, view_distance) && !missing(
        once,
        index,
        viewers,
        view_distance,
    ) by {
        lemma_step_settles(world, viewers, view_distance, stored_first, index);
    }
    assert(twice.chunks =~= once.chunks);
    assert(twice.loading =~= once.loading);
    if second.saves@.len() > 0 {
        assert(stale(once, second.saves@[0].chunk_index, viewers, view_distance));
    }
    if second.loads@.len() > 0 {
        assert(second.loads@.contains(second.loads@[0]));
    }
    if second.spawned@.len() > 0 {
        assert(second.spawned@.contains(second.spawned@[0]));
    }
}

/// A chunk that is live and out of sight leaves the world in the step, and
/// the step hands back exactly one save for it, holding the tiles that the
/// chunk had when the step began.
pub proof fn lemma_eviction_saves_once(
    world: WorldView,
    viewers: Seq<IVec2>,
    view_distance: ViewDistance,
    stored: Set<IVec2>,
    step: Resolution,
    index: IVec2,
)
    requires
        step.answers(world, viewers, view_distance, stored),
        stale(world, index, viewers, view_distance),
    ensures
        !resolved(world, viewers, view_distance, stored).chunks.contains_key(index),
        exists|k: int|
            0 <= k < step.saves@.len() && (#[trigger] step.saves@[k]).chunk_index == index
                && step.saves@[k].tiles@ == world.chunks[index],
        forall|j: int, k: int|
            0 <= j < step.saves@.len() && 0 <= k < step.saves@.len() && (
            #[trigger] step.saves@[j]).chunk_index == index && (
            #[trigger] step.saves@[k]).chunk_index == index ==> j == k,
        !step.loads@.contains(index),
        !step.spawned@.contains(index),
{
    let k = choose|k: int|
        0 <= k < step.saves@.len() && (#[trigger] step.saves@[k]).chunk_index == index;
    assert(step.saves@[k].tiles@ == world.chunks[index]);
}

/// No chunk is both saved and brought in by one step.
pub proof fn lemma_saves_and_spawns_apart(
    world: WorldView,
    viewers: Seq<IVec2>,
    view_distance: ViewDistance,
    stored: Set<IVec2>,
    step: Resolution,
    k: int,
)
    requires
        step.answers(world, viewers, view_distance, stored),
        0 <= k < step.saves@.len(),
    ensures
        !step.loads@.contains(step.saves@[k].chunk_index),
        !step.spawned@.contains(step.saves@[k].chunk_index),
{
    assert(stale(world, step.saves@[k].chunk_index, viewers, view_distance));
}

/// A step asks about backing files only for the chunks that are missing:
/// two lists of files that agree on those chunks lead to the same world.
pub proof fn lemma_only_missing_files_matter(
    world: WorldView,
    viewers: Seq<IVec2>,
    view_distance: ViewDistance,
    stored: Set<IVec2>,
    probed: Set<IVec2>,
)
    requires
        forall|index: IVec2|
            #[trigger] missing(world, index, viewers, view_distance) ==> (stored.contains(index)
                <==> probed.contains(index)),
    ensures
        resolved(world, viewers, view_distance, stored) == resolved(
            world,
            viewers,
            view_distance,
            probed,
        ),
{
    let a = resolved(world, viewers, view_distance, stored);
    let b = resolved(world, viewers, view_distance, probed);
    assert(a.chunks =~= b.chunks);
    assert(a.loading =~= b.loading);
}

/// A viewer sees the chunk in which it stands, however short its sight.
pub proof fn lemma_viewer_sees_own_chunk(chunk: Chunk, viewer: IVec2, view_distance: ViewDistance)
    requires
        chunk.covers(I64Vec2 { x: viewer.x as i64, y: viewer.y as i64 }),
    ensures
        visible_from(chunk.chunk_index, viewer, view_distance),
{
}

/// A viewer that sees farther sees no less.
pub proof fn lemma_farther_sight_sees_more(
    index: IVec2,
    viewer: IVec2,
    near: ViewDistance,
    far: ViewDistance,
)
    requires
        near.0 <= far.0,
        visible_from(index, viewer, near),
    ensures
        visible_from(index, viewer, far),
{
    assert(near.0 * TILE_LENGTH <= far.0 * TILE_LENGTH) by (nonlinear_arith)
        requires
            near.0 <= far.0,
    ;
}

/// With one viewer, and where no chunk in its sight is being loaded or has
/// a backing file, the chunks that are live after the step are exactly the
/// chunks that overlap the square around the viewer whose sides lie
/// `view_distance` tiles from it.
pub proof fn lemma_coverage(
    world: WorldView,
    viewer: IVec2,
    view_distance: ViewDistance,
    stored: Set<IVec2>,
    index: IVec2,
)
    requires
        forall|other: IVec2|
            #[trigger] visible_from(other, viewer, view_distance) ==> !world.loading.contains(other)
                && !stored.contains(other),
    ensures
        resolved(world, seq![viewer], view_distance, stored).chunks.contains_key(index) <==> (
        Chunk { chunk_index: index }).intersects(
            Rect::around(viewer, view_distance.0 * TILE_LENGTH),
        ),
{
    let viewers = seq![viewer];
    assert(visible(index, viewers, view_distance) <==> visible_from(index, viewer, view_distance))
        by {
        if visible_from(index, viewer, view_distance) {
            assert(viewers[0] == viewer);
        }
    }
}

/// Whether a chunk is in sight does not depend on the order of the viewers.
pub proof fn lemma_viewer_order(
    viewers: Seq<IVec2>,
    shuffled: Seq<IVec2>,
    view_distance: ViewDistance,
    index: IVec2,
)
    requires
        viewers.to_multiset() == shuffled.to_multiset(),
    ensures
        visible(index, viewers, view_distance) == visible(index, shuffled, view_distance),
{
    broadcast use vstd::seq_lib::group_to_multiset_ensures;

    if visible(index, viewers, view_distance) {
        let k = choose|k: int|
            0 <= k < viewers.len() && visible_from(index, #[trigger] viewers[k], view_distance);
        assert(viewers.contains(viewers[k]));
        assert(viewers.to_multiset().count(viewers[k]) > 0);
        assert(shuffled.contains(viewers[k]));
        let j = choose|j: int| 0 <= j < shuffled.len() && shuffled[j] == viewers[k];
        assert(visible_from(index, shuffled[j], view_distance));
    }
    if visible(index, shuffled, view_distance) {
        let k = choose|k: int|
            0 <= k < shuffled.len() && visible_from(index, #[trigger] shuffled[k], view_distance);
        assert(shuffled.contains(shuffled[k]));
        assert(shuffled.to_multiset().count(shuffled[k]) > 0);
        assert(viewers.contains(shuffled[k]));
        let j = choose|j: int| 0 <= j < viewers.len() && viewers[j] == shuffled[k];
        assert(visible_from(index, viewers[j], view_distance));
    }
}

/// The world after a step does not depend on the order of the viewers.
pub proof fn lemma_step_ignores_viewer_order(
    world: WorldView,
    viewers: Seq<IVec2>,
    shuffled: Seq<IVec2>,
    view_distance: ViewDistance,
    stored: Set<IVec2>,
)
    requires
        viewers.to_multiset() == shuffled.to_multiset(),
    ensures
        resolved(world, viewers, view_distance, stored) == resolved(
            world,
            shuffled,
            view_distance,
            stored,
        ),
{
    let a = resolved(world, viewers, view_distance, stored);
    let b = resolved(world, shuffled, view_distance, stored);
    assert forall|index: IVec2|
        visible(index, viewers, view_distance) == visible(index, shuffled, view_distance) by {
        lemma_viewer_order(viewers, shuffled, view_distance, index);
    }
    assert(a.chunks =~= b.chunks);
    assert(a.loading =~= b.loading);
}

} // verus!
