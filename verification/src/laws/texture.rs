//! What holds of the texture.

use crate::model::{empty_cache, CacheView};
use vstd::prelude::*;

verus! {

/// Every cell lies in the texture.
pub proof fn law_cells_lie_in_texture(cache: CacheView, top: u32, j: int)
    requires
        cache.wf(),
        cache.rows.contains_key(top),
        0 <= j < cache.rows[top].glyphs.len(),
    ensures
        ({
            let cell = cache.rows[top].glyphs[j].tex_coords;
            &&& cell.min.x <= cell.max.x <= cache.width
            &&& cell.min.y <= cell.max.y <= cache.height
        }),
{
    assert(cache.row_wf(top));
    assert(cache.cell_wf(top, cache.rows[top].glyphs[j].tex_coords));
}

/// No two cells share a pixel.
pub proof fn law_cells_do_not_overlap(
    cache: CacheView,
    a_top: u32,
    a: int,
    b_top: u32,
    b: int,
    x: int,
    y: int,
)
    requires
        cache.wf(),
        cache.rows.contains_key(a_top),
        0 <= a < cache.rows[a_top].glyphs.len(),
        cache.rows.contains_key(b_top),
        0 <= b < cache.rows[b_top].glyphs.len(),
        a_top != b_top || a != b,
    ensures
        !(cache.rows[a_top].glyphs[a].tex_coords.has_pixel(x, y)
            && cache.rows[b_top].glyphs[b].tex_coords.has_pixel(x, y)),
{
    assert(cache.row_wf(a_top));
    assert(cache.row_wf(b_top));
    assert(cache.cell_wf(a_top, cache.rows[a_top].glyphs[a].tex_coords));
    assert(cache.cell_wf(b_top, cache.rows[b_top].glyphs[b].tex_coords));
}

/// Every line of the texture lies in one row or in one gap, and not in both.
pub proof fn law_texture_is_tiled(cache: CacheView, y: int)
    requires
        cache.wf(),
        0 <= y < cache.height,
    ensures
        cache.covers(y),
        forall|a: u32, b: u32| #[trigger]
            cache.in_row(a, y) && #[trigger] cache.in_row(b, y) ==> a == b,
        forall|a: u32, b: u32| #[trigger]
            cache.in_gap(a, y) && #[trigger] cache.in_gap(b, y) ==> a == b,
        forall|a: u32, b: u32| !(#[trigger] cache.in_row(a, y) && #[trigger] cache.in_gap(b, y)),
{
}

/// However often rows were added and evicted, once all are gone the free space is in
/// one piece. Whatever other gaps there are have no lines.
pub proof fn law_free_space_is_joined(cache: CacheView)
    requires
        cache.wf(),
        cache.order.len() == 0,
    ensures
        cache.space_end_for_start.contains_key(0),
        cache.space_end_for_start[0] == cache.height,
        cache.space_start_for_end.contains_key(cache.height),
        cache.space_start_for_end[cache.height] == 0,
        forall|start: u32| #[trigger]
            cache.space_end_for_start.contains_key(start) && start != 0
                ==> cache.space_end_for_start[start] == start,
        forall|end: u32| #[trigger]
            cache.space_start_for_end.contains_key(end) && end != cache.height
                ==> cache.space_start_for_end[end] == end,
{
    cache.lemma_whole_gap();
}

/// A row for glyphs without height takes no line: those that were free still are, and
/// the others are still taken.
pub proof fn law_rows_without_height_take_no_lines(cache: CacheView, start: u32, y: int)
    requires
        cache.wf(),
        cache.is_gap(start, 0),
    ensures
        forall|s: u32| #[trigger]
            cache.opened(start, 0).in_gap(s, y) <==> cache.in_gap(s, y),
        forall|top: u32| #[trigger]
            cache.opened(start, 0).in_row(top, y) <==> cache.in_row(top, y),
{
    cache.lemma_opened(start, 0);
}

/// A cleared cache is a new one with the old settings and the old queue.
pub proof fn law_cleared_is_new(cache: CacheView)
    ensures
        cache.cleared() == (CacheView {
            queue: cache.queue,
            ..empty_cache(
                cache.width,
                cache.height,
                cache.scale_tolerance,
                cache.position_tolerance,
                cache.pad_glyphs,
            )
        }),
{
}

/// The rows that make room for others are the least recently used: what is evicted is
/// the start of the list, up to the first row in use at most, and the other rows stay
/// as they are.
pub proof fn law_least_recently_used_go_first(
    cache: CacheView,
    in_use: Set<u32>,
    height: int,
) -> (n: int)
    requires
        cache.wf(),
    ensures
        ({
            let after = cache.made_room(in_use, height).0;
            &&& 0 <= n <= cache.order.len()
            &&& after.order == cache.order.skip(n)
            &&& forall|i: int| 0 <= i < n ==> !in_use.contains(#[trigger] cache.order[i])
            &&& forall|top: u32| #[trigger]
                after.rows.contains_key(top) <==> cache.rows.contains_key(top)
                    && !cache.order.take(n).contains(top)
            &&& forall|top: u32| #[trigger]
                after.rows.contains_key(top) ==> after.rows[top] == cache.rows[top]
        }),
    decreases cache.order.len(),
{
    let after = cache.made_room(in_use, height).0;
    if cache.order.len() == 0 || in_use.contains(cache.order[0]) {
        assert(after.order =~= cache.order.skip(0));
        0
    } else {
        let first = cache.order[0];
        let next = cache.evicted();
        cache.lemma_evicted();
        let m = if next.is_gap(cache.evicted_gap(), height) {
            assert(after == next);
            assert(next.order =~= next.order.skip(0));
            0
        } else {
            assert(after == next.made_room(in_use, height).0);
            law_least_recently_used_go_first(next, in_use, height)
        };
        let n = m + 1;
        assert(next.order.skip(m) =~= cache.order.skip(n));
        assert forall|i: int| 0 <= i < n implies !in_use.contains(#[trigger] cache.order[i]) by {
            if i > 0 {
                assert(cache.order[i] == next.order[i - 1]);
            }
        }
        assert forall|top: u32| #[trigger]
            cache.order.take(n).contains(top) <==> top == first || next.order.take(m).contains(
                top,
            ) by {
            assert(cache.order.take(n)[0] == first);
            if cache.order.take(n).contains(top) {
                let i = choose|i: int| 0 <= i < n && cache.order.take(n)[i] == top;
                if i > 0 {
                    assert(next.order.take(m)[i - 1] == top);
                }
            }
            if next.order.take(m).contains(top) {
                let i = choose|i: int| 0 <= i < m && next.order.take(m)[i] == top;
                assert(cache.order.take(n)[i + 1] == top);
            }
        }
        assert forall|top: u32| #[trigger]
            after.rows.contains_key(top) <==> cache.rows.contains_key(top)
                && !cache.order.take(n).contains(top) by {
            assert(next.rows.contains_key(top) <==> cache.rows.contains_key(top) && top != first);
        }
        n
    }
}

} // verus!
