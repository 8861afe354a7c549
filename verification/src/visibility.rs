//! Which chunks a viewer sees.

use crate::chunk::{Chunk, ViewDistance, TILE_LENGTH, UNITS_PER_CHUNK};
use crate::math::{div_floor, I64Vec2, IVec2, Rect};
use vstd::prelude::*;

verus! {

/// The order in which chunk indices are listed: by `x`, then by `y`.
pub open spec fn index_before(a: IVec2, b: IVec2) -> bool {
    a.x < b.x || (a.x == b.x && a.y < b.y)
}

/// Whether each index of `indices` comes before the next: the list rises
/// strictly, so nothing occurs in it twice.
pub open spec fn strictly_rising(indices: Seq<IVec2>) -> bool {
    forall|j: int, k: int|
        0 <= j < k < indices.len() ==> index_before(#[trigger] indices[j], #[trigger] indices[k])
}

/// The window of a viewer at `viewer`: the square around it that reaches
/// `view_distance` tiles to each side.
pub open spec fn view_border_spec(viewer: IVec2, view_distance: ViewDistance) -> Rect {
    Rect::around(viewer, view_distance.0 * TILE_LENGTH)
}

/// Whether a viewer at `viewer` sees the chunk at `index`: the chunk and the
/// viewer's window overlap.
pub open spec fn visible_from(index: IVec2, viewer: IVec2, view_distance: ViewDistance) -> bool {
    (Chunk { chunk_index: index }).intersects(view_border_spec(viewer, view_distance))
}

/// Whether any of `viewers` sees the chunk at `index`.
pub open spec fn visible(index: IVec2, viewers: Seq<IVec2>, view_distance: ViewDistance) -> bool {
    exists|k: int| 0 <= k < viewers.len() && visible_from(index, #[trigger] viewers[k], view_distance)
}

/// Computes the window of a viewer.
pub fn view_border(viewer: IVec2, view_distance: ViewDistance) -> (rect: Rect)
    ensures
        rect == view_border_spec(viewer, view_distance),
        rect.min.x == viewer.x - view_distance.0 * TILE_LENGTH,
        rect.min.y == viewer.y - view_distance.0 * TILE_LENGTH,
        rect.max.x == viewer.x + view_distance.0 * TILE_LENGTH,
        rect.max.y == viewer.y + view_distance.0 * TILE_LENGTH,
{
    let half: u32 = view_distance.0 as u32 * TILE_LENGTH;
    Rect::from_center_half_size(viewer, half)
}

/// Where the chunks with coordinate `i` start along an axis.
pub open spec fn chunk_start(i: int) -> int {
    i * UNITS_PER_CHUNK
}

/// The least chunk coordinate that is no less than the floored quotient of
/// `a` and fits an index.
fn first_chunk_coord(a: i64) -> (c: i64)
    ensures
        i32::MIN <= c <= i32::MAX + 1,
        forall|i: i32| c <= i <==> a < #[trigger] chunk_start(i as int) + UNITS_PER_CHUNK,
{
    let q: i64 = div_floor(a, UNITS_PER_CHUNK);
    if q < i32::MIN as i64 {
        i32::MIN as i64
    } else if q > i32::MAX as i64 {
        i32::MAX as i64 + 1
    } else {
        q
    }
}

/// The greatest chunk coordinate that is no more than the floored quotient
/// of `a` and fits an index.
fn last_chunk_coord(a: i64) -> (c: i64)
    ensures
        i32::MIN - 1 <= c <= i32::MAX,
        forall|i: i32| i <= c <==> #[trigger] chunk_start(i as int) <= a,
{
    let q: i64 = div_floor(a, UNITS_PER_CHUNK);
    if q < i32::MIN as i64 {
        i32::MIN as i64 - 1
    } else if q > i32::MAX as i64 {
        i32::MAX as i64
    } else {
        q
    }
}

/// Lists the chunks that overlap `rect`: each of them once, by rising `x`
/// and, where `x` is equal, by rising `y`.
pub fn chunk_indices_inside(rect: Rect) -> (indices: Vec<IVec2>)
    ensures
        forall|index: IVec2|
            #![trigger indices@.contains(index)]
            #![trigger (Chunk { chunk_index: index }).intersects(rect)]
            indices@.contains(index) <==> (Chunk { chunk_index: index }).intersects(rect),
        strictly_rising(indices@),
{
    let mut indices: Vec<IVec2> = Vec::new();
    if rect.min.x > rect.max.x || rect.min.y > rect.max.y {
        return indices;
    }
    let x_first: i64 = first_chunk_coord(rect.min.x);
    let x_last: i64 = last_chunk_coord(rect.max.x);
    let y_first: i64 = first_chunk_coord(rect.min.y);
    let y_last: i64 = last_chunk_coord(rect.max.y);
    let mut x: i64 = x_first;
    while x <= x_last
        invariant
            i32::MIN <= x_first <= x,
            x <= x_last + 1 || x == x_first,
            x_last <= i32::MAX,
            i32::MIN <= y_first,
            y_last <= i32::MAX,
            forall|k: int|
                0 <= k < indices@.len() ==> x_first <= (#[trigger] indices@[k]).x < x && y_first
                    <= indices@[k].y <= y_last,
            forall|index: IVec2|
                x_first <= index.x < x && y_first <= index.y <= y_last ==> indices@.contains(index),
            strictly_rising(indices@),
        decreases x_last + 1 - x,
    {
        let mut y: i64 = y_first;
        while y <= y_last
            invariant
                i32::MIN <= x_first <= x <= x_last <= i32::MAX,
                i32::MIN <= y_first <= y,
                y <= y_last + 1 || y == y_first,
                y_last <= i32::MAX,
                forall|k: int|
                    0 <= k < indices@.len() ==> {
                        ||| (x_first <= (#[trigger] indices@[k]).x < x && y_first <= indices@[k].y
                            <= y_last)
                        ||| (indices@[k].x == x && y_first <= indices@[k].y < y)
                    },
                forall|index: IVec2|
                    (x_first <= index.x < x && y_first <= index.y <= y_last) || (index.x == x
                        && y_first <= index.y < y) ==> indices@.contains(index),
                strictly_rising(indices@),
            decreases y_last + 1 - y,
        {
            let index = IVec2 { x: x as i32, y: y as i32 };
            proof {
                broadcast use vstd::seq_lib::lemma_seq_contains_after_push;

                let before = indices@;
                let after = indices@.push(index);
                assert forall|j: int, k: int| 0 <= j < k < after.len() implies index_before(
                    #[trigger] after[j],
                    #[trigger] after[k],
                ) by {
                    if k < before.len() {
                        assert(after[j] == before[j] && after[k] == before[k]);
                    } else {
                        assert(after[j] == before[j]);
                    }
                }
                assert forall|other: IVec2|
                    (x_first <= other.x < x && y_first <= other.y <= y_last) || (other.x == x
                        && y_first <= other.y < y + 1) implies after.contains(other) by {
                    if other.x == x && other.y == y {
                        assert(other == index);
                    } else {
                        assert(before.contains(other));
                    }
                }
            }
            indices.push(index);
            y += 1;
        }
        x += 1;
    }
    proof {
        assert forall|index: IVec2| indices@.contains(index) implies (Chunk {
            chunk_index: index,
        }).intersects(rect) by {
            let k = choose|k: int| 0 <= k < indices@.len() && indices@[k] == index;
            assert(x_first <= indices@[k].x);
            assert(chunk_start(index.x as int) == index.x * UNITS_PER_CHUNK);
            assert(chunk_start(index.y as int) == index.y * UNITS_PER_CHUNK);
        }
        assert forall|index: IVec2| (Chunk { chunk_index: index }).intersects(
            rect,
        ) implies indices@.contains(index) by {
            assert(chunk_start(index.x as int) == index.x * UNITS_PER_CHUNK);
            assert(chunk_start(index.y as int) == index.y * UNITS_PER_CHUNK);
            assert(x_first <= index.x <= x_last);
            assert(y_first <= index.y <= y_last);
        }
    }
    indices
}

/// Tests whether `index` occurs in `list`.
pub(crate) fn contains_index(list: &Vec<IVec2>, index: IVec2) -> (found: bool)
    ensures
        found == list@.contains(index),
{
    let n: usize = list.len();
    let mut k: usize = 0;
    while k < n
        invariant
            n == list.len(),
            k <= n,
            forall|i: int| 0 <= i < k ==> list@[i] != index,
        decreases n - k,
    {
        if list[k].x == index.x && list[k].y == index.y {
            assert(list@[k as int] == index);
            return true;
        }
        k += 1;
    }
    false
}

/// Lists the chunks that at least one of `viewers` sees. A chunk that
/// several viewers see may come more than once.
pub(crate) fn visible_chunk_indices(viewers: &Vec<IVec2>, view_distance: ViewDistance) -> (indices: Vec<
    IVec2,
>)
    ensures
        forall|index: IVec2|
            #![trigger indices@.contains(index)]
            #![trigger visible(index, viewers@, view_distance)]
            indices@.contains(index) <==> visible(index, viewers@, view_distance),
{
    let mut indices: Vec<IVec2> = Vec::new();
    let n: usize = viewers.len();
    let mut v: usize = 0;
    while v < n
        invariant
            n == viewers.len(),
            v <= n,
            forall|index: IVec2|
                indices@.contains(index) <==> visible(
                    index,
                    viewers@.subrange(0, v as int),
                    view_distance,
                ),
        decreases n - v,
    {
        let mut seen = chunk_indices_inside(view_border(viewers[v], view_distance));
        proof {
            let before = viewers@.subrange(0, v as int);
            let after = viewers@.subrange(0, v as int + 1);
            broadcast use vstd::seq_lib::lemma_seq_concat_contains_all_elements;

            assert forall|index: IVec2| (indices@ + seen@).contains(index) <==> visible(
                index,
                after,
                view_distance,
            ) by {
                if visible(index, after, view_distance) {
                    let k = choose|k: int|
                        0 <= k < after.len() && visible_from(
                            index,
                            #[trigger] after[k],
                            view_distance,
                        );
                    if k < v {
                        assert(before[k] == after[k]);
                        assert(visible(index, before, view_distance));
                    } else {
                        assert(after[k] == viewers@[v as int]);
                    }
                }
                if indices@.contains(index) {
                    let k = choose|k: int|
                        0 <= k < before.len() && visible_from(
                            index,
                            #[trigger] before[k],
                            view_distance,
                        );
                    assert(after[k] == before[k]);
                }
                if seen@.contains(index) {
                    assert(after[v as int] == viewers@[v as int]);
                }
            }
        }
        indices.append(&mut seen);
        v += 1;
    }
    assert(viewers@.subrange(0, n as int) =~= viewers@);
    indices
}

} // verus!
