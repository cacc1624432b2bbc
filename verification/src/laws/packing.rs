//! Where the glyphs of a queue are put, and when there is no room for them.

use crate::arithmetic::Comparison;
use crate::caching::{
    adds, caches_queue, deals_with, finds_row, is_pass, is_run, is_run_of_pass, is_stuck,
    newest_fit, readies_row, refuses, too_large, Moment, PassEnd,
};
use crate::collections::{moved_to_back, tallest_first};
use crate::error::CacheWriteErr;
use crate::glyph::PositionedGlyph;
use crate::model::CacheView;
use crate::passes::{
    has_room, lemma_caching, lemma_deals_with, lemma_found_row, lemma_last_attempt,
    lemma_newest_row_with_room, lemma_pass, lemma_readies_row, lemma_run,
};
use crate::row::RowView;
use crate::upload::Upload;
use vstd::prelude::*;

verus! {

/// The columns that a glyph takes: those of its bounding box and, with padding, one more
/// on either side.
pub open spec fn columns_of(cache: CacheView, glyph: PositionedGlyph) -> int {
    let bb = glyph.bounding_box->0;
    bb.max.x - bb.min.x + if cache.pad_glyphs {
        2int
    } else {
        0
    }
}

/// The lines that a glyph takes: those of its bounding box and, with padding, one more
/// above and below.
pub open spec fn lines_of(cache: CacheView, glyph: PositionedGlyph) -> int {
    let bb = glyph.bounding_box->0;
    bb.max.y - bb.min.y + if cache.pad_glyphs {
        2int
    } else {
        0
    }
}

/// Whether a glyph takes more columns or lines than the texture has.
pub open spec fn exceeds_texture(cache: CacheView, glyph: PositionedGlyph) -> bool {
    columns_of(cache, glyph) > cache.width || lines_of(cache, glyph) > cache.height
}

/// Whether a row has room for a glyph: it is at least as high, and at least as many columns
/// are left in it.
pub open spec fn has_room_for(cache: CacheView, top: u32, glyph: PositionedGlyph) -> bool {
    &&& cache.rows.contains_key(top)
    &&& cache.rows[top].height >= lines_of(cache, glyph)
    &&& cache.width - cache.rows[top].width >= columns_of(cache, glyph)
}

/// Whether a line of pixels lies in a row.
pub open spec fn holds_line(cache: CacheView, top: u32, y: int) -> bool {
    &&& cache.rows.contains_key(top)
    &&& top <= y < top + cache.rows[top].height
}

/// Whether a glyph was drawn, at this place.
pub open spec fn is_drawn_at(
    before: Moment,
    queued: (usize, PositionedGlyph),
    after: Moment,
    x: int,
    y: int,
) -> bool {
    let u = after.uploads.last();
    &&& after.uploads.len() == before.uploads.len() + 1
    &&& after.uploads.drop_last() == before.uploads
    &&& u.font_id == queued.0
    &&& u.glyph == queued.1
    &&& u.rect.min.x == x
    &&& u.rect.min.y == y
    &&& u.rect.max.x == x + columns_of(before.cache, queued.1)
    &&& u.rect.max.y == y + lines_of(before.cache, queued.1)
}

/// Dealing with a glyph by drawing it means adding it to a row.
proof fn lemma_drawn(
    before: Moment,
    queued: (usize, PositionedGlyph),
    after: Moment,
    comparison: Comparison,
) -> (added: (CacheView, u32))
    requires
        before.cache.wf(),
        queued.1.bounding_box is Some,
        queued.1.is_drawable(),
        deals_with(before, queued, after, comparison),
        after.uploads != before.uploads,
    ensures
        ({
            let (ready, top) = added;
            let width = columns_of(before.cache, queued.1);
            let height = lines_of(before.cache, queued.1);
            &&& 0 <= width <= before.cache.width
            &&& 0 <= height <= before.cache.height
            &&& readies_row(before.cache, before.in_use, width, height, ready, top)
            &&& ready.wf()
            &&& ready.rows.contains_key(top)
            &&& after == before.added(ready, top, queued)
            &&& after.cache.order.len() > 0
            &&& after.cache.order.last() == top
            &&& is_drawn_at(before, queued, after, ready.rows[top].width as int, top as int)
            &&& after.cache.rows[top].height == ready.rows[top].height
            &&& after.cache.rows[top].width == ready.rows[top].width + width
            &&& after.cache.rows == ready.rows.insert(top, after.cache.rows[top])
            &&& after.cache.space_end_for_start == ready.space_end_for_start
            &&& after.cache.space_start_for_end == ready.space_start_for_end
        }),
{
    let (width, height) = before.cache.padded_size(queued.1);
    let (ready, top) = choose|ready: CacheView, top: u32|
        {
            &&& #[trigger] readies_row(before.cache, before.in_use, width, height, ready, top)
            &&& ready.rows[top].glyphs.len() < usize::MAX
            &&& after == before.added(ready, top, queued)
        };
    lemma_readies_row(before.cache, before.in_use, width, height, ready, top);
    assert(ready.row_wf(top));
    assert(after.uploads.drop_last() =~= before.uploads);
    (ready, top)
}

/// Where any row has room for a glyph, the glyph is put into the one of them that was
/// used last, at its first free column. No row is opened or evicted for it.
pub proof fn law_rows_with_room_are_used(
    before: Moment,
    queued: (usize, PositionedGlyph),
    after: Moment,
    comparison: Comparison,
    some: u32,
) -> (i: int)
    requires
        before.cache.wf(),
        queued.1.bounding_box is Some,
        queued.1.is_drawable(),
        deals_with(before, queued, after, comparison),
        after.uploads != before.uploads,
        has_room_for(before.cache, some, queued.1),
    ensures
        0 <= i < before.cache.order.len(),
        ({
            let cache = before.cache;
            let top = cache.order[i];
            &&& has_room_for(cache, top, queued.1)
            &&& forall|j: int|
                i < j < cache.order.len() ==> !has_room_for(
                    cache,
                    #[trigger] cache.order[j],
                    queued.1,
                )
            &&& is_drawn_at(before, queued, after, cache.rows[top].width as int, top as int)
            &&& after.cache.rows.dom() == cache.rows.dom()
            &&& forall|t: u32|
                t != top && #[trigger] cache.rows.contains_key(t) ==> after.cache.rows[t]
                    == cache.rows[t]
            &&& after.cache.rows[top].height == cache.rows[top].height
            &&& after.cache.rows[top].width == cache.rows[top].width + columns_of(cache, queued.1)
            &&& after.cache.space_end_for_start == cache.space_end_for_start
            &&& after.cache.space_start_for_end == cache.space_start_for_end
        }),
{
    let cache = before.cache;
    let (width, height) = (columns_of(cache, queued.1), lines_of(cache, queued.1));
    let (ready, top) = lemma_drawn(before, queued, after, comparison);
    lemma_newest_row_with_room(cache, cache.order, width, height);
    assert(cache.order.contains(some));
    let k = choose|k: int| 0 <= k < cache.order.len() && cache.order[k] == some;
    assert(cache.order[k] == some);
    assert(newest_fit(cache, cache.order, width, height) is Some);
    let i = choose|i: int|
        {
            &&& 0 <= i < cache.order.len()
            &&& #[trigger] cache.order[i] == top
            &&& forall|j: int|
                i < j < cache.order.len() ==> !has_room(
                    cache,
                    #[trigger] cache.order[j],
                    width,
                    height,
                )
        };
    assert(cache.order.contains(cache.order[i]));
    assert(after.cache.rows.dom() =~= cache.rows.dom());
    i
}

/// Where no row has room for a glyph but a gap is high enough, a row as high as the glyph
/// is opened at the start of such a gap, and the glyph stands at the left of it. No row
/// is evicted.
pub proof fn law_gaps_are_used(
    before: Moment,
    queued: (usize, PositionedGlyph),
    after: Moment,
    comparison: Comparison,
    some: u32,
) -> (top: u32)
    requires
        before.cache.wf(),
        queued.1.bounding_box is Some,
        queued.1.is_drawable(),
        deals_with(before, queued, after, comparison),
        after.uploads != before.uploads,
        forall|t: u32| !#[trigger] has_room_for(before.cache, t, queued.1),
        before.cache.space_end_for_start.contains_key(some),
        before.cache.space_end_for_start[some] - some >= lines_of(before.cache, queued.1),
    ensures
        before.cache.space_end_for_start.contains_key(top),
        before.cache.space_end_for_start[top] - top >= lines_of(before.cache, queued.1),
        is_drawn_at(before, queued, after, 0, top as int),
        after.cache.rows.dom() == before.cache.rows.dom().insert(top),
        forall|t: u32|
            t != top && #[trigger] before.cache.rows.contains_key(t) ==> after.cache.rows[t]
                == before.cache.rows[t],
        before.cache.rows.contains_key(top) ==> before.cache.rows[top].height == 0,
        after.cache.rows[top].height == lines_of(before.cache, queued.1),
        after.cache.rows[top].width == columns_of(before.cache, queued.1),
{
    let cache = before.cache;
    let (width, height) = (columns_of(cache, queued.1), lines_of(cache, queued.1));
    let (ready, top) = lemma_drawn(before, queued, after, comparison);
    assert forall|t: u32| !#[trigger] has_room(cache, t, width, height) by {
        assert(!has_room_for(cache, t, queued.1));
    }
    lemma_no_row_has_room(cache, width, height);
    assert(cache.is_gap(some, height));
    cache.lemma_opened(top, height as u32);
    assert(after.cache.rows.dom() =~= cache.rows.dom().insert(top));
    top
}

/// If no row has room, none is found.
proof fn lemma_no_row_has_room(cache: CacheView, width: int, height: int)
    requires
        cache.wf(),
        forall|t: u32| !#[trigger] has_room(cache, t, width, height),
    ensures
        newest_fit(cache, cache.order, width, height) is None,
{
    lemma_newest_row_with_room(cache, cache.order, width, height);
    if newest_fit(cache, cache.order, width, height) is Some {
        let top = newest_fit(cache, cache.order, width, height)->0;
        let i = choose|i: int| 0 <= i < cache.order.len() && #[trigger] cache.order[i] == top;
        assert(cache.order.contains(top));
        assert(has_room(cache, top, width, height));
    }
}

// Free lines.

/// Whether one of these lines lies in a row that is not among the first `n` of the list.
pub open spec fn is_blocked(cache: CacheView, n: int, from: int, to: int) -> bool {
    exists|t: u32, y: int|
        {
            &&& from <= y < to
            &&& #[trigger] holds_line(cache, t, y)
            &&& !cache.order.take(n).contains(t)
        }
}

/// Lines that follow one another and lie in no row lie in one gap.
proof fn lemma_free_lines_are_joined(cache: CacheView, start: u32, from: int, to: int)
    requires
        cache.wf(),
        0 <= from < to <= cache.height,
        forall|t: u32, y: int| from <= y < to ==> !#[trigger] holds_line(cache, t, y),
        cache.in_gap(start, from),
    ensures
        cache.in_gap(start, to - 1),
    decreases to - from,
{
    if from + 1 < to {
        lemma_free_lines_are_joined(cache, start, from, to - 1);
        let last = to - 1;
        if !cache.in_gap(start, last) {
            assert(cache.covers(last));
            assert forall|t: u32| !cache.in_row(t, last) by {
                assert(!holds_line(cache, t, last));
            }
            let other = choose|s: u32| cache.in_gap(s, last);
            assert(cache.in_gap(other, last));
            assert(cache.space_end_for_start[start] == to - 1);
            assert(cache.space_end_for_start.contains_key(other));
            assert(other == to - 1);
        }
    }
}

/// Where no gap is high enough, that many lines that follow one another meet a row.
proof fn lemma_no_gap(cache: CacheView, height: int, from: int)
    requires
        cache.wf(),
        !cache.has_gap(height),
        0 < height,
        0 <= from,
        from + height <= cache.height,
    ensures
        is_blocked(cache, 0, from, from + height),
{
    let to = from + height;
    if !is_blocked(cache, 0, from, to) {
        assert forall|t: u32, y: int| from <= y < to implies !#[trigger] holds_line(
            cache,
            t,
            y,
        ) by {
            assert(!cache.order.take(0).contains(t));
        }
        assert(cache.covers(from));
        assert forall|t: u32| !cache.in_row(t, from) by {
            assert(!holds_line(cache, t, from));
        }
        let s = choose|s: u32| cache.in_gap(s, from);
        assert(cache.in_gap(s, from));
        lemma_free_lines_are_joined(cache, s, from, to);
        assert(cache.is_gap(s, height));
    }
}

/// Whether the rows after the first `n` of the list leave nowhere this many free lines
/// that follow one another.
pub open spec fn leaves_no_lines(cache: CacheView, n: int, height: int) -> bool {
    forall|from: int|
        0 <= from && from + height <= cache.height ==> #[trigger] is_blocked(
            cache,
            n,
            from,
            from + height,
        )
}

/// What is blocked without the first row of the list is blocked by rows after it.
proof fn lemma_evicted_blocked(cache: CacheView, n: int, from: int, to: int)
    requires
        cache.wf(),
        cache.order.len() > 0,
        0 <= n < cache.order.len(),
        is_blocked(cache.evicted(), n, from, to),
    ensures
        is_blocked(cache, n + 1, from, to),
{
    let next = cache.evicted();
    cache.lemma_evicted();
    let (t, y) = choose|t: u32, y: int|
        {
            &&& from <= y < to
            &&& #[trigger] holds_line(next, t, y)
            &&& !next.order.take(n).contains(t)
        };
    assert(holds_line(cache, t, y));
    let gone = cache.order.take(n + 1);
    if gone.contains(t) {
        let i = choose|i: int| 0 <= i < gone.len() && gone[i] == t;
        assert(next.rows.contains_key(t));
        assert(i > 0);
        assert(next.order.take(n)[i - 1] == t);
    }
}

/// Making room evicts the least recently used rows, as few as leave a gap, and stops in
/// front of a row in use.
proof fn lemma_made_room_evicts(cache: CacheView, in_use: Set<u32>, height: int) -> (n: int)
    requires
        cache.wf(),
        0 <= height <= cache.height,
        !cache.has_gap(height),
    ensures
        ({
            let (after, gap) = cache.made_room(in_use, height);
            &&& 0 <= n <= cache.order.len()
            &&& after.order == cache.order.skip(n)
            &&& forall|i: int| 0 <= i < n ==> !in_use.contains(#[trigger] cache.order[i])
            &&& forall|t: u32| #[trigger]
                after.rows.contains_key(t) <==> cache.rows.contains_key(t)
                    && !cache.order.take(n).contains(t)
            &&& forall|t: u32| #[trigger]
                after.rows.contains_key(t) ==> after.rows[t] == cache.rows[t]
            &&& gap is Some ==> n >= 1
            &&& gap is Some && height > 0 ==> leaves_no_lines(cache, n - 1, height)
            &&& gap is Some && height == 0 ==> n == 1
            &&& gap is None && height > 0 ==> leaves_no_lines(cache, n, height)
            &&& gap is None && height == 0 ==> n == 0
            &&& gap is None ==> n < cache.order.len() && in_use.contains(cache.order[n])
        }),
    decreases cache.order.len(),
{
    let (after, gap) = cache.made_room(in_use, height);
    if height > 0 {
        assert forall|from: int|
            0 <= from && from + height <= cache.height implies #[trigger] is_blocked(
            cache,
            0,
            from,
            from + height,
        ) by {
            lemma_no_gap(cache, height, from);
        }
    }
    if cache.order.len() == 0 {
        cache.lemma_whole_gap();
        assert(cache.is_gap(0, height));
        0
    } else if in_use.contains(cache.order[0]) {
        assert(after.order =~= cache.order.skip(0));
        assert(cache.order.take(0).len() == 0);
        0
    } else {
        let first = cache.order[0];
        let next = cache.evicted();
        cache.lemma_evicted();
        assert(cache.order.contains(first));
        let m = if next.is_gap(cache.evicted_gap(), height) {
            assert(after == next && gap is Some);
            assert(next.order =~= next.order.skip(0));
            assert(next.order.take(0).len() == 0);
            0
        } else {
            assert((after, gap) == next.made_room(in_use, height));
            assert forall|start: u32| !next.is_gap(start, height) by {
                assert(!cache.is_gap(start, height));
            }
            lemma_made_room_evicts(next, in_use, height)
        };
        let n = m + 1;
        assert(next.order.skip(m) =~= cache.order.skip(n));
        assert forall|i: int| 0 <= i < n implies !in_use.contains(#[trigger] cache.order[i]) by {
            if i > 0 {
                assert(cache.order[i] == next.order[i - 1]);
            }
        }
        assert forall|t: u32| #[trigger] cache.order.take(n).contains(t) <==> t == first
            || next.order.take(m).contains(t) by {
            assert(cache.order.take(n)[0] == first);
            if cache.order.take(n).contains(t) {
                let i = choose|i: int| 0 <= i < n && cache.order.take(n)[i] == t;
                if i > 0 {
                    assert(next.order.take(m)[i - 1] == t);
                }
            }
            if next.order.take(m).contains(t) {
                let i = choose|i: int| 0 <= i < m && next.order.take(m)[i] == t;
                assert(cache.order.take(n)[i + 1] == t);
            }
        }
        assert forall|t: u32| #[trigger]
            after.rows.contains_key(t) <==> cache.rows.contains_key(t) && !cache.order.take(
                n,
            ).contains(t) by {
            assert(next.rows.contains_key(t) <==> cache.rows.contains_key(t) && t != first);
        }
        if height > 0 {
            if gap is Some && m > 0 {
                assert forall|from: int|
                    0 <= from && from + height <= cache.height implies #[trigger] is_blocked(
                    cache,
                    n - 1,
                    from,
                    from + height,
                ) by {
                    assert(is_blocked(next, m - 1, from, from + height));
                    lemma_evicted_blocked(cache, m - 1, from, from + height);
                }
            }
            if gap is None {
                assert forall|from: int|
                    0 <= from && from + height <= cache.height implies #[trigger] is_blocked(
                    cache,
                    n,
                    from,
                    from + height,
                ) by {
                    assert(is_blocked(next, m, from, from + height));
                    lemma_evicted_blocked(cache, m, from, from + height);
                }
            }
        }
        n
    }
}

/// Where no row has room for a glyph and no gap is high enough, the least recently used
/// rows are evicted, none of them in use, and no more than are needed for the lines of
/// the glyph to be free. A row as high as the glyph takes these, and the glyph stands at
/// the left of it.
pub proof fn law_rows_make_room(
    before: Moment,
    queued: (usize, PositionedGlyph),
    after: Moment,
    comparison: Comparison,
) -> (room: (u32, int))
    requires
        before.cache.wf(),
        queued.1.bounding_box is Some,
        queued.1.is_drawable(),
        deals_with(before, queued, after, comparison),
        after.uploads != before.uploads,
        forall|t: u32| !#[trigger] has_room_for(before.cache, t, queued.1),
        forall|start: u32| #[trigger]
            before.cache.space_end_for_start.contains_key(start)
                ==> before.cache.space_end_for_start[start] - start < lines_of(
                before.cache,
                queued.1,
            ),
    ensures
        ({
            let cache = before.cache;
            let (top, n) = room;
            let height = lines_of(cache, queued.1);
            &&& 1 <= n <= cache.order.len()
            &&& forall|i: int| 0 <= i < n ==> !before.in_use.contains(#[trigger] cache.order[i])
            &&& height > 0 ==> leaves_no_lines(cache, n - 1, height)
            &&& height == 0 ==> n == 1
            &&& is_drawn_at(before, queued, after, 0, top as int)
            &&& after.cache.rows[top].height == height
            &&& after.cache.rows[top].width == columns_of(cache, queued.1)
            &&& after.cache.rows.contains_key(top)
            &&& forall|t: u32|
                t != top ==> (#[trigger] after.cache.rows.contains_key(t)
                    <==> cache.rows.contains_key(t) && !cache.order.take(n).contains(t))
            &&& forall|t: u32|
                t != top && #[trigger] after.cache.rows.contains_key(t) ==> after.cache.rows[t]
                    == cache.rows[t]
        }),
{
    let cache = before.cache;
    let (width, height) = (columns_of(cache, queued.1), lines_of(cache, queued.1));
    let (ready, top) = lemma_drawn(before, queued, after, comparison);
    assert forall|t: u32| !#[trigger] has_room(cache, t, width, height) by {
        assert(!has_room_for(cache, t, queued.1));
    }
    lemma_no_row_has_room(cache, width, height);
    assert forall|start: u32| !cache.is_gap(start, height) by {}
    let n = lemma_made_room_evicts(cache, before.in_use, height);
    cache.lemma_made_room(before.in_use, height);
    cache.made_room(before.in_use, height).0.lemma_opened(top, height as u32);
    (top, n)
}

// Where a pass ends.

/// Whether every row after a row in use is in use: those that are not were used before.
pub open spec fn newest_are_in_use(order: Seq<u32>, in_use: Set<u32>) -> bool {
    forall|i: int, j: int|
        0 <= i < j < order.len() && in_use.contains(#[trigger] order[i]) ==> in_use.contains(
            #[trigger] order[j],
        )
}

/// Using a row makes it the newest, and it is in use.
proof fn lemma_moved_is_in_use(order: Seq<u32>, in_use: Set<u32>, top: u32)
    requires
        order.no_duplicates(),
        order.contains(top),
        newest_are_in_use(order, in_use),
    ensures
        newest_are_in_use(moved_to_back(order, top), in_use.insert(top)),
{
    let n = order.index_of(top);
    let after = moved_to_back(order, top);
    assert(0 <= n < order.len() && order[n] == top);
    assert forall|i: int| 0 <= i < order.len() - 1 implies #[trigger] after[i] == order[if i < n {
        i
    } else {
        i + 1
    }] by {}
    assert forall|i: int, j: int|
        0 <= i < j < after.len() && in_use.insert(top).contains(
            #[trigger] after[i],
        ) implies in_use.insert(top).contains(#[trigger] after[j]) by {
        if j < order.len() - 1 {
            assert(in_use.contains(after[i]));
        }
    }
}

/// Opening a row for a glyph leaves every row after a row in use in use.
proof fn lemma_opened_is_in_use(cache: CacheView, in_use: Set<u32>, start: u32, height: u32)
    requires
        cache.order_wf(),
        newest_are_in_use(cache.order, in_use),
    ensures
        newest_are_in_use(cache.opened(start, height).order, in_use.insert(start)),
{
    let after = cache.opened(start, height).order;
    if cache.rows.contains_key(start) {
        lemma_moved_is_in_use(cache.order, in_use, start);
    } else {
        assert(!cache.order.contains(start));
        assert forall|i: int, j: int|
            0 <= i < j < after.len() && in_use.insert(start).contains(
                #[trigger] after[i],
            ) implies in_use.insert(start).contains(#[trigger] after[j]) by {
            assert(after[i] == cache.order[i]);
            assert(cache.order.contains(after[i]));
        }
    }
}

/// Dealing with a glyph leaves every row after a row in use in use.
proof fn lemma_deals_with_in_use(
    before: Moment,
    queued: (usize, PositionedGlyph),
    after: Moment,
    comparison: Comparison,
)
    requires
        before.cache.wf(),
        queued.1.bounding_box is Some,
        queued.1.is_drawable(),
        deals_with(before, queued, after, comparison),
        newest_are_in_use(before.cache.order, before.in_use),
    ensures
        newest_are_in_use(after.cache.order, after.in_use),
{
    let cache = before.cache;
    let in_use = before.in_use;
    if exists|top: u32| #[trigger]
        finds_row(cache, queued, comparison, Some(top)) && after == before.found(top) {
        let top = choose|top: u32| #[trigger]
            finds_row(cache, queued, comparison, Some(top)) && after == before.found(top);
        let e = lemma_found_row(cache, queued, comparison, top);
        lemma_moved_is_in_use(cache.order, in_use, top);
    } else {
        let (width, height) = cache.padded_size(queued.1);
        let (ready, top) = choose|ready: CacheView, top: u32|
            {
                &&& #[trigger] readies_row(cache, in_use, width, height, ready, top)
                &&& ready.rows[top].glyphs.len() < usize::MAX
                &&& after == before.added(ready, top, queued)
            };
        lemma_readies_row(cache, in_use, width, height, ready, top);
        if newest_fit(cache, cache.order, width, height) is Some {
            lemma_moved_is_in_use(cache.order, in_use, top);
        } else {
            if cache.has_gap(height) {
                lemma_opened_is_in_use(cache, in_use, top, height as u32);
            } else {
                let emptied = cache.made_room(in_use, height).0;
                let n = lemma_made_room_evicts(cache, in_use, height);
                cache.lemma_made_room(in_use, height);
                assert(newest_are_in_use(emptied.order, in_use)) by {
                    assert forall|i: int, j: int|
                        0 <= i < j < emptied.order.len() && in_use.contains(
                            #[trigger] emptied.order[i],
                        ) implies in_use.contains(#[trigger] emptied.order[j]) by {
                        assert(emptied.order[i] == cache.order[n + i]);
                        assert(emptied.order[j] == cache.order[n + j]);
                    }
                }
                lemma_opened_is_in_use(emptied, in_use, top, height as u32);
            }
            lemma_moved_is_in_use(ready.order, in_use.insert(top), top);
            assert(in_use.insert(top).insert(top) =~= in_use.insert(top));
        }
    }
}

/// At every moment of a run every row after a row in use is in use.
proof fn lemma_run_in_use(
    queue: Seq<(usize, PositionedGlyph)>,
    run: Seq<Moment>,
    comparison: Comparison,
    k: int,
)
    requires
        is_run(queue, run, comparison),
        run[0].cache.wf(),
        run[0].cache.queue == queue,
        run[0].in_use == Set::<u32>::empty(),
        0 <= k < run.len(),
    ensures
        newest_are_in_use(run[k].cache.order, run[k].in_use),
    decreases k,
{
    if k > 0 {
        lemma_run(queue, run, comparison, k - 1);
        lemma_run_in_use(queue, run, comparison, k - 1);
        assert(deals_with(run[k - 1], queue[k - 1], run[k - 1 + 1], comparison));
        assert(run[k - 1].cache.queue[k - 1] == queue[k - 1]);
        lemma_deals_with_in_use(run[k - 1], queue[k - 1], run[k], comparison);
    }
}

/// Whether one of these lines lies in a row in use.
pub open spec fn meets_row_in_use(m: Moment, from: int, to: int) -> bool {
    exists|t: u32, y: int|
        from <= y < to && m.in_use.contains(t) && #[trigger] holds_line(m.cache, t, y)
}

/// Whether there is no room for a glyph beside the rows in use: no row at all has room
/// for it, and rows in use leave nowhere as many free lines as it takes. A glyph without
/// height has no room if no gap is left and all rows are in use.
pub open spec fn has_no_room(m: Moment, glyph: PositionedGlyph) -> bool {
    let height = lines_of(m.cache, glyph);
    &&& forall|t: u32| !#[trigger] has_room_for(m.cache, t, glyph)
    &&& forall|from: int|
        0 < height && 0 <= from && from + height <= m.cache.height ==> #[trigger] meets_row_in_use(
            m,
            from,
            from + height,
        )
    &&& height == 0 ==> {
        &&& forall|start: u32| !#[trigger] m.cache.space_end_for_start.contains_key(start)
        &&& forall|t: u32| #[trigger] m.cache.rows.contains_key(t) ==> m.in_use.contains(t)
    }
}

/// A pass gets stuck at a glyph only if that fits the texture and there is no room for it
/// beside the rows in use.
pub proof fn law_passes_get_stuck_for_want_of_room(
    queue: Seq<(usize, PositionedGlyph)>,
    run: Seq<Moment>,
    last: Moment,
    comparison: Comparison,
    k: int,
)
    requires
        is_run(queue, run, comparison),
        run[0].cache.wf(),
        run[0].cache.queue == queue,
        run[0].in_use == Set::<u32>::empty(),
        0 <= k < run.len(),
        k < queue.len(),
        is_stuck(run[k], queue[k], last, comparison),
    ensures
        !exceeds_texture(run[k].cache, queue[k].1),
        has_no_room(run[k], queue[k].1),
{
    let m = run[k];
    let cache = m.cache;
    let glyph = queue[k].1;
    lemma_run(queue, run, comparison, k);
    lemma_run_in_use(queue, run, comparison, k);
    assert(cache.queue[k] == queue[k]);
    let (width, height) = (columns_of(cache, glyph), lines_of(cache, glyph));
    assert(cache.padded_size(glyph) == (width, height));
    lemma_newest_row_with_room(cache, cache.order, width, height);
    assert forall|t: u32| !#[trigger] has_room_for(cache, t, glyph) by {
        if has_room_for(cache, t, glyph) {
            assert(cache.order.contains(t));
            let i = choose|i: int| 0 <= i < cache.order.len() && cache.order[i] == t;
            assert(!has_room(cache, cache.order[i], width, height));
        }
    }
    let n = lemma_made_room_evicts(cache, m.in_use, height);
    assert forall|t: u32| #[trigger]
        cache.rows.contains_key(t) && !cache.order.take(n).contains(t) implies m.in_use.contains(
        t,
    ) by {
        assert(cache.order.contains(t));
        let i = choose|i: int| 0 <= i < cache.order.len() && cache.order[i] == t;
        if i < n {
            assert(cache.order.take(n)[i] == t);
        }
        assert(m.in_use.contains(cache.order[n]));
        assert(m.in_use.contains(cache.order[i]));
    }
    if height > 0 {
        assert forall|from: int|
            0 <= from && from + height <= cache.height implies #[trigger] meets_row_in_use(
            m,
            from,
            from + height,
        ) by {
            assert(is_blocked(cache, n, from, from + height));
            let (t, y) = choose|t: u32, y: int|
                {
                    &&& from <= y < from + height
                    &&& #[trigger] holds_line(cache, t, y)
                    &&& !cache.order.take(n).contains(t)
                };
            assert(cache.rows.contains_key(t));
            assert(holds_line(m.cache, t, y));
        }
    } else {
        assert(cache.order.take(0).len() == 0);
        assert forall|start: u32| !#[trigger] cache.space_end_for_start.contains_key(start) by {
            assert(!cache.is_gap(start, height));
        }
    }
}

/// Whether a pass over the queue of a cache can come to a glyph that fits the texture but
/// for which there is no room beside the rows of those before it.
pub open spec fn can_run_out_of_room(start: CacheView, comparison: Comparison) -> bool {
    exists|run: Seq<Moment>|
        {
            &&& #[trigger] is_run(start.queue, run, comparison)
            &&& run.len() <= start.queue.len()
            &&& run[0].cache == start
            &&& run[0].in_use == Set::<u32>::empty()
            &&& !exceeds_texture(start, start.queue[run.len() - 1].1)
            &&& has_no_room(run.last(), start.queue[run.len() - 1].1)
        }
}

/// A queue is refused for want of room only if one of its glyphs finds no room in a
/// texture that holds nothing but those before it, tallest first.
pub proof fn law_refused_queues_have_no_room(
    before: CacheView,
    uploads_before: Seq<Upload>,
    after: CacheView,
    uploads: Seq<Upload>,
    comparison: Comparison,
) -> (start: CacheView)
    requires
        before.wf(),
        caches_queue(
            before,
            uploads_before,
            after,
            uploads,
            Err(CacheWriteErr::NoRoomForWholeQueue),
            comparison,
        ),
    ensures
        start.queue.to_multiset() == before.queue.to_multiset(),
        tallest_first(start.queue),
        start.rows == Map::<u32, RowView>::empty(),
        start.width == before.width,
        start.height == before.height,
        start.pad_glyphs == before.pad_glyphs,
        can_run_out_of_room(start, comparison),
{
    let refused = Err::<(), CacheWriteErr>(CacheWriteErr::NoRoomForWholeQueue);
    let a = lemma_last_attempt(before, uploads_before, after, uploads, refused, comparison);
    assert(a.end == PassEnd::Stuck);
    let run = choose|run: Seq<Moment>| #[trigger]
        is_run_of_pass(a.start, a.uploads, run, a.last, a.end, comparison);
    let k = run.len() - 1;
    law_passes_get_stuck_for_want_of_room(a.start.queue, run, a.last, comparison, k);
    lemma_run(a.start.queue, run, comparison, k);
    assert(is_run(a.start.queue, run, comparison));
    a.start
}

// Queues that fit.

/// The lines that glyphs take if each gets a row of its own, and every row at least one.
pub open spec fn lines_in_stack(cache: CacheView, queue: Seq<(usize, PositionedGlyph)>) -> int
    decreases queue.len(),
{
    if queue.len() == 0 {
        0
    } else {
        lines_in_stack(cache, queue.drop_last()) + lines_of_row(cache, queue.last().1)
    }
}

/// The lines of a row for one glyph, but at least one.
pub open spec fn lines_of_row(cache: CacheView, glyph: PositionedGlyph) -> int {
    if lines_of(cache, glyph) > 1 {
        lines_of(cache, glyph)
    } else {
        1
    }
}

/// A glyph may be taken out of a stack from anywhere.
proof fn lemma_take_out(cache: CacheView, queue: Seq<(usize, PositionedGlyph)>, i: int)
    requires
        0 <= i < queue.len(),
    ensures
        lines_in_stack(cache, queue) == lines_in_stack(cache, queue.remove(i)) + lines_of_row(
            cache,
            queue[i].1,
        ),
    decreases queue.len(),
{
    if i == queue.len() - 1 {
        assert(queue.remove(i) =~= queue.drop_last());
    } else {
        lemma_take_out(cache, queue.drop_last(), i);
        assert(queue.remove(i).drop_last() =~= queue.drop_last().remove(i));
        assert(queue.remove(i).last() == queue.last());
    }
}

/// A stack is as high in any order.
proof fn lemma_any_order(
    cache: CacheView,
    x: Seq<(usize, PositionedGlyph)>,
    y: Seq<(usize, PositionedGlyph)>,
)
    requires
        x.to_multiset() == y.to_multiset(),
    ensures
        lines_in_stack(cache, x) == lines_in_stack(cache, y),
    decreases x.len(),
{
    broadcast use vstd::seq_lib::group_to_multiset_ensures;

    assert(x.len() == x.to_multiset().len());
    assert(y.len() == y.to_multiset().len());
    if x.len() > 0 {
        let q = x.last();
        let last = x.len() - 1;
        assert(x[last] == q);
        assert(x.contains(q));
        assert(y.to_multiset().count(q) > 0);
        assert(y.contains(q));
        let i = choose|i: int| 0 <= i < y.len() && y[i] == q;
        assert(x.remove(last) =~= x.drop_last());
        assert(x.remove(last).to_multiset() =~= x.to_multiset().remove(q));
        assert(y.remove(i).to_multiset() =~= y.to_multiset().remove(q));
        lemma_any_order(cache, x.drop_last(), y.remove(i));
        lemma_take_out(cache, y, i);
    }
}

/// Part of a stack is no higher than the whole.
proof fn lemma_part_of_stack(cache: CacheView, queue: Seq<(usize, PositionedGlyph)>, k: int)
    requires
        0 <= k < queue.len(),
    ensures
        0 <= lines_in_stack(cache, queue.take(k)),
        lines_in_stack(cache, queue.take(k + 1)) == lines_in_stack(cache, queue.take(k))
            + lines_of_row(cache, queue[k].1),
        lines_in_stack(cache, queue.take(k + 1)) <= lines_in_stack(cache, queue),
    decreases queue.len() - k,
{
    assert(queue.take(k + 1).drop_last() =~= queue.take(k));
    lemma_stack_is_not_negative(cache, queue.take(k));
    if k + 1 < queue.len() {
        lemma_part_of_stack(cache, queue, k + 1);
    } else {
        assert(queue.take(k + 1) =~= queue);
    }
}

/// A stack has no negative height.
proof fn lemma_stack_is_not_negative(cache: CacheView, queue: Seq<(usize, PositionedGlyph)>)
    ensures
        0 <= lines_in_stack(cache, queue),
    decreases queue.len(),
{
    if queue.len() > 0 {
        lemma_stack_is_not_negative(cache, queue.drop_last());
    }
}

/// Whether all free lines are below this one.
pub open spec fn is_free_from(cache: CacheView, from: int) -> bool {
    &&& 0 <= from <= cache.height
    &&& forall|start: u32| #[trigger]
        cache.space_end_for_start.contains_key(start) ==> start == from
            && cache.space_end_for_start[start] == cache.height
    &&& from < cache.height ==> cache.space_end_for_start.contains_key(from as u32)
}

/// Dealing with a glyph takes at most its lines off the free ones.
proof fn lemma_deals_with_stack(
    before: Moment,
    queued: (usize, PositionedGlyph),
    after: Moment,
    comparison: Comparison,
    from: int,
) -> (next: int)
    requires
        before.cache.wf(),
        queued.1.bounding_box is Some,
        queued.1.is_drawable(),
        deals_with(before, queued, after, comparison),
        is_free_from(before.cache, from),
        from + lines_of_row(before.cache, queued.1) <= before.cache.height,
    ensures
        is_free_from(after.cache, next),
        next <= from + lines_of_row(before.cache, queued.1),
{
    let cache = before.cache;
    if after.uploads == before.uploads {
        assert(after.cache.space_end_for_start == cache.space_end_for_start) by {
            if !(exists|top: u32| #[trigger]
                finds_row(cache, queued, comparison, Some(top)) && after == before.found(top)) {
                assert(adds(before, queued, after));
                assert(after.uploads.len() == before.uploads.len() + 1);
            }
        }
        lemma_deals_with(before, queued, after, comparison);
        from
    } else {
        let (width, height) = (columns_of(cache, queued.1), lines_of(cache, queued.1));
        let (ready, top) = lemma_drawn(before, queued, after, comparison);
        lemma_deals_with(before, queued, after, comparison);
        if newest_fit(cache, cache.order, width, height) is Some {
            from
        } else {
            assert(cache.is_gap(from as u32, height));
            assert(cache.is_gap(top, height));
            assert(top == from);
            from + height
        }
    }
}

/// At every moment of a run over a queue that stacks, the free lines are below those of
/// a stack of the glyphs so far.
proof fn lemma_run_stack(
    queue: Seq<(usize, PositionedGlyph)>,
    run: Seq<Moment>,
    comparison: Comparison,
    k: int,
) -> (from: int)
    requires
        is_run(queue, run, comparison),
        run[0].cache.wf(),
        run[0].cache.queue == queue,
        is_free_from(run[0].cache, 0),
        lines_in_stack(run[0].cache, queue) <= run[0].cache.height,
        0 <= k < run.len(),
    ensures
        is_free_from(run[k].cache, from),
        from <= lines_in_stack(run[0].cache, queue.take(k)),
    decreases k,
{
    if k == 0 {
        lemma_stack_is_not_negative(run[0].cache, queue.take(0));
        0
    } else {
        lemma_run(queue, run, comparison, k - 1);
        let from = lemma_run_stack(queue, run, comparison, k - 1);
        lemma_part_of_stack(run[0].cache, queue, k - 1);
        assert(deals_with(run[k - 1], queue[k - 1], run[k - 1 + 1], comparison));
        assert(run[k - 1].cache.queue[k - 1] == queue[k - 1]);
        lemma_deals_with_stack(run[k - 1], queue[k - 1], run[k], comparison, from)
    }
}

/// A pass over a queue that stacks, on a cache without rows, does not get stuck.
proof fn lemma_stack_is_not_stuck(
    cache: CacheView,
    uploads: Seq<Upload>,
    after: Moment,
    end: PassEnd,
    comparison: Comparison,
)
    requires
        cache.wf(),
        cache == cache.cleared(),
        lines_in_stack(cache, cache.queue) <= cache.height,
        is_pass(cache, uploads, after, end, comparison),
    ensures
        end != PassEnd::Stuck,
{
    let run = choose|run: Seq<Moment>| #[trigger]
        is_run_of_pass(cache, uploads, run, after, end, comparison);
    if end == PassEnd::Stuck {
        let k = run.len() - 1;
        let from = lemma_run_stack(cache.queue, run, comparison, k);
        lemma_run(cache.queue, run, comparison, k);
        lemma_part_of_stack(cache, cache.queue, k);
        let glyph = cache.queue[k].1;
        let height = lines_of(cache, glyph);
        assert(run[k].cache.padded_size(glyph).1 == height);
        assert(run[k].cache.is_gap(from as u32, height));
    }
}

/// A queue is cached, whatever was cached before, if none of its glyphs is wider than the
/// texture and all of them, one above the other, are no higher than it. Glyphs without
/// height count as one line.
pub proof fn law_queues_that_stack_are_cached(
    before: CacheView,
    uploads_before: Seq<Upload>,
    after: CacheView,
    uploads: Seq<Upload>,
    result: Result<(), CacheWriteErr>,
    comparison: Comparison,
)
    requires
        before.wf(),
        caches_queue(before, uploads_before, after, uploads, result, comparison),
        forall|i: int|
            0 <= i < before.queue.len() ==> columns_of(before, (#[trigger] before.queue[i]).1)
                <= before.width,
        lines_in_stack(before, before.queue) <= before.height,
    ensures
        result == Ok::<(), CacheWriteErr>(()),
{
    let a = lemma_last_attempt(before, uploads_before, after, uploads, result, comparison);
    lemma_pass(a.start, a.uploads, a.last, a.end, comparison);
    if a.end == PassEnd::Stuck {
        lemma_same_stack(before, a.start, before.queue);
        lemma_any_order(a.start, before.queue, a.start.queue);
        lemma_stack_is_not_stuck(a.start, a.uploads, a.last, a.end, comparison);
    }
    if a.end == PassEnd::TooLarge {
        law_too_large_glyphs_exceed_the_texture(
            before,
            uploads_before,
            after,
            uploads,
            comparison,
        );
        let i = choose|i: int|
            0 <= i < before.queue.len() && exceeds_texture(before, (#[trigger] before.queue[i]).1);
        lemma_part_of_stack(before, before.queue, i);
    }
}

/// A stack is as high for caches with the same padding.
proof fn lemma_same_stack(a: CacheView, b: CacheView, queue: Seq<(usize, PositionedGlyph)>)
    requires
        a.pad_glyphs == b.pad_glyphs,
    ensures
        lines_in_stack(a, queue) == lines_in_stack(b, queue),
    decreases queue.len(),
{
    if queue.len() > 0 {
        lemma_same_stack(a, b, queue.drop_last());
    }
}

// Glyphs that are too large.

/// A queue is refused for a glyph that is too large only if one of its glyphs takes more
/// columns or lines than the texture has.
pub proof fn law_too_large_glyphs_exceed_the_texture(
    before: CacheView,
    uploads_before: Seq<Upload>,
    after: CacheView,
    uploads: Seq<Upload>,
    comparison: Comparison,
)
    requires
        before.wf(),
        caches_queue(
            before,
            uploads_before,
            after,
            uploads,
            Err(CacheWriteErr::GlyphTooLarge),
            comparison,
        ),
    ensures
        exists|i: int|
            0 <= i < before.queue.len() && exceeds_texture(before, (#[trigger] before.queue[i]).1),
{
    let refused = Err::<(), CacheWriteErr>(CacheWriteErr::GlyphTooLarge);
    lemma_caching(before, uploads_before, after, uploads, refused, comparison);
    let i = choose|i: int|
        0 <= i < before.queue.len() && too_large(before, (#[trigger] before.queue[i]).1);
    assert(exceeds_texture(before, before.queue[i].1));
}

/// A glyph that is not recognised is refused as too large if it takes more columns or
/// lines than the texture has, and only then. It is not drawn, and no pass gets stuck at
/// it.
pub proof fn law_glyphs_that_exceed_the_texture_are_refused(
    m: Moment,
    queued: (usize, PositionedGlyph),
    after: Moment,
    comparison: Comparison,
)
    requires
        m.cache.wf(),
        queued.1.bounding_box is Some,
        queued.1.is_drawable(),
        finds_row(m.cache, queued, comparison, None),
    ensures
        refuses(m, queued, comparison) <==> exceeds_texture(m.cache, queued.1),
        exceeds_texture(m.cache, queued.1) ==> !adds(m, queued, after) && !is_stuck(
            m,
            queued,
            after,
            comparison,
        ),
{
}

/// Every new upload is one of a queued glyph, and fills as many columns and lines as that
/// takes, within the texture.
pub proof fn law_uploads_are_as_large_as_their_glyphs(
    before: CacheView,
    uploads_before: Seq<Upload>,
    after: CacheView,
    uploads: Seq<Upload>,
    result: Result<(), CacheWriteErr>,
    comparison: Comparison,
    i: int,
)
    requires
        before.wf(),
        caches_queue(before, uploads_before, after, uploads, result, comparison),
        uploads_before.len() <= i < uploads.len(),
    ensures
        before.queue.contains((uploads[i].font_id, uploads[i].glyph)),
        uploads[i].rect.max.x - uploads[i].rect.min.x == columns_of(before, uploads[i].glyph),
        uploads[i].rect.max.y - uploads[i].rect.min.y == lines_of(before, uploads[i].glyph),
        uploads[i].rect.max.x <= before.width,
        uploads[i].rect.max.y <= before.height,
{
    lemma_caching(before, uploads_before, after, uploads, result, comparison);
}

} // verus!
