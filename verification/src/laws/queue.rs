//! What holds of caching a queue.

use crate::arithmetic::Comparison;
use crate::caching::{
    caches_queue, deals_with, ends_caching, finds_row, is_pass, is_run, is_run_of_pass, readies_row,
    sorts_queue, too_large, with_queue, Moment, PassEnd,
};
use crate::collections::{height_of, tallest_first};
use crate::error::CacheWriteErr;
use crate::geometry::{Point, Rect};
use crate::glyph::PositionedGlyph;
use crate::glyph_tree::TreeEntry;
use crate::model::CacheView;
use crate::passes::{
    is_upload_of, keeps_row, lemma_caching, lemma_deals_with, lemma_deals_with_rows,
    lemma_first_attempt, lemma_found_row, lemma_last_attempt, lemma_pass, lemma_run, uses_rows,
};
use crate::row::font_glyph_key_spec;
use crate::upload::Upload;
use vstd::prelude::*;

verus! {

/// The texture, the tolerances and the padding stay as they are, and the cache stays
/// well-formed.
pub proof fn law_caching_keeps_settings(
    before: CacheView,
    uploads_before: Seq<Upload>,
    after: CacheView,
    uploads: Seq<Upload>,
    result: Result<(), CacheWriteErr>,
    comparison: Comparison,
)
    requires
        before.wf(),
        caches_queue(before, uploads_before, after, uploads, result, comparison),
    ensures
        after.wf(),
        after.width == before.width,
        after.height == before.height,
        after.scale_tolerance == before.scale_tolerance,
        after.position_tolerance == before.position_tolerance,
        after.pad_glyphs == before.pad_glyphs,
{
    lemma_caching(before, uploads_before, after, uploads, result, comparison);
}

/// If caching fails, the queue is untouched. If it succeeds, the queue is empty.
pub proof fn law_failure_keeps_queue(
    before: CacheView,
    uploads_before: Seq<Upload>,
    after: CacheView,
    uploads: Seq<Upload>,
    result: Result<(), CacheWriteErr>,
    comparison: Comparison,
)
    requires
        before.wf(),
        caches_queue(before, uploads_before, after, uploads, result, comparison),
    ensures
        result is Err ==> after.queue == before.queue,
        result is Ok ==> after.queue.len() == 0,
{
    lemma_caching(before, uploads_before, after, uploads, result, comparison);
}

/// A glyph with a shape is queued behind all others, as it is and for its font. One without
/// a shape is not queued. What was queued before stays where it was, and nothing that is
/// cached and no setting changes.
pub proof fn law_glyphs_with_a_shape_are_queued(
    cache: CacheView,
    font_id: usize,
    glyph: PositionedGlyph,
)
    ensures
        ({
            let after = cache.queued(font_id, glyph);
            let n = cache.queue.len() as int;
            &&& glyph.bounding_box is Some ==> after.queue.len() == n + 1 && after.queue[n] == (
                font_id,
                glyph,
            )
            &&& glyph.bounding_box is None ==> after.queue.len() == n
            &&& forall|i: int| 0 <= i < n ==> #[trigger] after.queue[i] == cache.queue[i]
            &&& after == (CacheView { queue: after.queue, ..cache })
        }),
{
}

/// Uploads asked for earlier stay, and new ones follow them.
pub proof fn law_uploads_are_appended(
    before: CacheView,
    uploads_before: Seq<Upload>,
    after: CacheView,
    uploads: Seq<Upload>,
    result: Result<(), CacheWriteErr>,
    comparison: Comparison,
)
    requires
        before.wf(),
        caches_queue(before, uploads_before, after, uploads, result, comparison),
    ensures
        uploads_before.is_prefix_of(uploads),
{
    lemma_caching(before, uploads_before, after, uploads, result, comparison);
}

/// Every new upload is one of a queued glyph. Its pixels lie in the texture, and they
/// are those of the bounding box of the glyph and of its padding.
pub proof fn law_uploads_fit(
    before: CacheView,
    uploads_before: Seq<Upload>,
    after: CacheView,
    uploads: Seq<Upload>,
    result: Result<(), CacheWriteErr>,
    comparison: Comparison,
    i: int,
)
    requires
        before.wf(),
        caches_queue(before, uploads_before, after, uploads, result, comparison),
        uploads_before.len() <= i < uploads.len(),
    ensures
        before.queue.contains((uploads[i].font_id, uploads[i].glyph)),
        uploads[i].rect.max.x <= before.width,
        uploads[i].rect.max.y <= before.height,
        (uploads[i].cols(), uploads[i].rows()) == before.padded_size(uploads[i].glyph),
{
    lemma_caching(before, uploads_before, after, uploads, result, comparison);
    assert(is_upload_of(before, uploads[i]));
}

/// A glyph is said to be too large only if one of those in the queue is.
pub proof fn law_too_large_is_true(
    before: CacheView,
    uploads_before: Seq<Upload>,
    after: CacheView,
    uploads: Seq<Upload>,
    result: Result<(), CacheWriteErr>,
    comparison: Comparison,
)
    requires
        before.wf(),
        caches_queue(before, uploads_before, after, uploads, result, comparison),
        result == Err::<(), CacheWriteErr>(CacheWriteErr::GlyphTooLarge),
    ensures
        exists|i: int|
            0 <= i < before.queue.len() && too_large(before, (#[trigger] before.queue[i]).1),
{
    lemma_caching(before, uploads_before, after, uploads, result, comparison);
}

/// Whether no cached version of a glyph can be found to match it.
pub open spec fn matches_no_entry(
    cache: CacheView,
    queued: (usize, PositionedGlyph),
    comparison: Comparison,
) -> bool {
    forall|e: TreeEntry| #[trigger]
        cache.tree(font_glyph_key_spec((queued.0, queued.1.id))).contains(e)
            ==> !comparison.can_match(
            queued.1.spec(),
            e.spec,
            cache.scale_tolerance,
            cache.position_tolerance,
            true,
        )
}

/// A single glyph that matches nothing in the cache is refused if it is too large, and
/// then nothing changes. Otherwise it is cached, whatever else was.
pub proof fn law_only_too_large_glyphs_are_refused(
    before: CacheView,
    uploads_before: Seq<Upload>,
    after: CacheView,
    uploads: Seq<Upload>,
    result: Result<(), CacheWriteErr>,
    comparison: Comparison,
)
    requires
        before.wf(),
        before.queue.len() == 1,
        matches_no_entry(before, before.queue[0], comparison),
        caches_queue(before, uploads_before, after, uploads, result, comparison),
    ensures
        too_large(before, before.queue[0].1) ==> result == Err::<(), CacheWriteErr>(
            CacheWriteErr::GlyphTooLarge,
        ) && after == before && uploads == uploads_before,
        !too_large(before, before.queue[0].1) ==> result == Ok::<(), CacheWriteErr>(()),
{
    let a = lemma_first_attempt(before, uploads_before, after, uploads, result, comparison);
    lemma_single(before, a.start);
    if too_large(before, before.queue[0].1) {
        lemma_matches_no_entry(before, a.start, before.queue[0], comparison);
        lemma_refused(a.start, uploads_before, a.last, a.end, comparison);
        assert(after == with_queue(before, before.queue));
        assert(with_queue(before, before.queue) == before);
    } else {
        law_single_glyph_is_cached(before, uploads_before, after, uploads, result, comparison);
    }
}

/// What matches no entry matches none of the same index.
proof fn lemma_matches_no_entry(
    cache: CacheView,
    other: CacheView,
    queued: (usize, PositionedGlyph),
    comparison: Comparison,
)
    requires
        matches_no_entry(cache, queued, comparison),
        other == with_queue(cache, other.queue),
    ensures
        matches_no_entry(other, queued, comparison),
{
    assert(other.all_glyphs == cache.all_glyphs);
    let key = font_glyph_key_spec((queued.0, queued.1.id));
    assert(other.tree(key) == cache.tree(key));
}

/// A pass over a single glyph that is too large and matches nothing changes nothing.
proof fn lemma_refused(
    cache: CacheView,
    uploads: Seq<Upload>,
    after: Moment,
    end: PassEnd,
    comparison: Comparison,
)
    requires
        cache.wf(),
        cache.queue.len() == 1,
        matches_no_entry(cache, cache.queue[0], comparison),
        too_large(cache, cache.queue[0].1),
        is_pass(cache, uploads, after, end, comparison),
    ensures
        end == PassEnd::TooLarge,
        after.cache == cache,
        after.uploads == uploads,
{
    let run = choose|run: Seq<Moment>| #[trigger]
        is_run_of_pass(cache, uploads, run, after, end, comparison);
    lemma_nothing_is_found(cache, cache.queue[0], comparison);
    if run.len() > 1 {
        assert(deals_with(run[0], cache.queue[0], run[1], comparison));
    }
}

/// Sorting leaves a single glyph where it is.
proof fn lemma_single(cache: CacheView, sorted: CacheView)
    requires
        sorted.queue.len() == 1,
        cache.queue.len() == 1,
        forall|q: (usize, PositionedGlyph)| #[trigger]
            sorted.queue.contains(q) <==> cache.queue.contains(q),
    ensures
        sorted.queue[0] == cache.queue[0],
{
    assert(sorted.queue.contains(sorted.queue[0]));
    assert(cache.queue.contains(sorted.queue[0]));
}

/// What matches no entry is not found.
proof fn lemma_nothing_is_found(
    cache: CacheView,
    queued: (usize, PositionedGlyph),
    comparison: Comparison,
)
    requires
        cache.wf(),
        matches_no_entry(cache, queued, comparison),
    ensures
        forall|top: u32| !finds_row(cache, queued, comparison, Some(top)),
{
    assert forall|top: u32| !finds_row(cache, queued, comparison, Some(top)) by {
        if finds_row(cache, queued, comparison, Some(top)) {
            let e = lemma_found_row(cache, queued, comparison, top);
        }
    }
}

/// A single glyph that is not too large can always be cached, and so can none.
pub proof fn law_single_glyph_is_cached(
    before: CacheView,
    uploads_before: Seq<Upload>,
    after: CacheView,
    uploads: Seq<Upload>,
    result: Result<(), CacheWriteErr>,
    comparison: Comparison,
)
    requires
        before.wf(),
        caches_queue(before, uploads_before, after, uploads, result, comparison),
        before.queue.len() <= 1,
        before.queue.len() == 1 ==> !too_large(before, before.queue[0].1),
    ensures
        result is Ok,
{
    lemma_caching(before, uploads_before, after, uploads, result, comparison);
}

/// The first glyph of an empty cache, if it is not too large, is drawn into the top left
/// corner of the texture.
pub proof fn law_first_glyph_stands_in_the_corner(
    before: CacheView,
    uploads_before: Seq<Upload>,
    after: CacheView,
    uploads: Seq<Upload>,
    result: Result<(), CacheWriteErr>,
    comparison: Comparison,
)
    requires
        before.wf(),
        before == before.cleared(),
        before.queue.len() == 1,
        !too_large(before, before.queue[0].1),
        caches_queue(before, uploads_before, after, uploads, result, comparison),
    ensures
        result is Ok,
        ({
            let (font_id, glyph) = before.queue[0];
            let (width, height) = before.padded_size(glyph);
            let rect = Rect {
                min: Point { x: 0u32, y: 0u32 },
                max: Point { x: width as u32, y: height as u32 },
            };
            uploads == uploads_before.push(Upload { rect, font_id, glyph })
        }),
{
    law_single_glyph_is_cached(before, uploads_before, after, uploads, result, comparison);
    let a = lemma_first_attempt(before, uploads_before, after, uploads, result, comparison);
    let (sorted, last, end) = (a.start, a.last, a.end);
    lemma_pass(sorted, uploads_before, last, end, comparison);
    let queued = before.queue[0];
    lemma_single(before, sorted);
    let run = choose|run: Seq<Moment>| #[trigger]
        is_run_of_pass(sorted, uploads_before, run, last, end, comparison);
    assert(end == PassEnd::Done);
    assert(deals_with(run[0], sorted.queue[0], run[1], comparison));
    lemma_first_glyph(run[0], queued, run[1], comparison);
}

/// Dealing with the first glyph of an empty cache draws it into the top left corner.
proof fn lemma_first_glyph(
    before: Moment,
    queued: (usize, PositionedGlyph),
    after: Moment,
    comparison: Comparison,
)
    requires
        before.cache.wf(),
        before.cache == before.cache.cleared(),
        queued.1.bounding_box is Some,
        queued.1.is_drawable(),
        deals_with(before, queued, after, comparison),
    ensures
        ({
            let (width, height) = before.cache.padded_size(queued.1);
            let rect = Rect {
                min: Point { x: 0u32, y: 0u32 },
                max: Point { x: width as u32, y: height as u32 },
            };
            after.uploads == before.uploads.push(
                Upload { rect, font_id: queued.0, glyph: queued.1 },
            )
        }),
{
    let cache = before.cache;
    let (width, height) = cache.padded_size(queued.1);
    lemma_nothing_is_found(cache, queued, comparison);
    let (ready, top) = choose|ready: CacheView, top: u32|
        {
            &&& #[trigger] readies_row(cache, before.in_use, width, height, ready, top)
            &&& ready.rows[top].glyphs.len() < usize::MAX
            &&& after == before.added(ready, top, queued)
        };
    assert(cache.is_gap(0, height));
    assert(top == 0);
}

/// Whether the uploads of this range are in the order of their heights, the tallest first.
pub open spec fn drawn_tallest_first(uploads: Seq<Upload>, from: int, to: int) -> bool {
    forall|i: int, k: int|
        from <= i < k < to ==> upload_height(#[trigger] uploads[i]) >= upload_height(
            #[trigger] uploads[k],
        )
}

/// Within one attempt the tallest glyphs are drawn first.
pub proof fn law_attempts_draw_tallest_first(
    cache: CacheView,
    uploads: Seq<Upload>,
    after: Moment,
    end: PassEnd,
    comparison: Comparison,
)
    requires
        cache.wf(),
        tallest_first(cache.queue),
        is_pass(cache, uploads, after, end, comparison),
    ensures
        drawn_tallest_first(after.uploads, uploads.len() as int, after.uploads.len() as int),
{
    let run = choose|run: Seq<Moment>| #[trigger]
        is_run_of_pass(cache, uploads, run, after, end, comparison);
    lemma_run_heights(cache.queue, run, comparison, run.len() - 1);
}

/// Caching a queue draws the tallest glyphs first, or starts anew with them once, where
/// the first attempt got stuck.
pub proof fn law_uploads_are_tallest_first(
    before: CacheView,
    uploads_before: Seq<Upload>,
    after: CacheView,
    uploads: Seq<Upload>,
    result: Result<(), CacheWriteErr>,
    comparison: Comparison,
)
    requires
        before.wf(),
        caches_queue(before, uploads_before, after, uploads, result, comparison),
    ensures
        exists|n: int|
            {
                &&& uploads_before.len() <= n <= uploads.len()
                &&& #[trigger] drawn_tallest_first(uploads, uploads_before.len() as int, n)
                &&& drawn_tallest_first(uploads, n, uploads.len() as int)
            },
{
    let a = lemma_first_attempt(before, uploads_before, after, uploads, result, comparison);
    law_attempts_draw_tallest_first(a.start, a.uploads, a.last, a.end, comparison);
    lemma_pass(a.start, a.uploads, a.last, a.end, comparison);
    let n = a.last.uploads.len() as int;
    if a.end == PassEnd::Stuck {
        let cleared = a.last.cache.cleared();
        a.last.cache.lemma_cleared();
        let (last, end) = choose|last: Moment, end: PassEnd|
            {
                &&& #[trigger] is_pass(cleared, a.last.uploads, last, end, comparison)
                &&& ends_caching(before.queue, last, end, after, uploads, result)
            };
        law_attempts_draw_tallest_first(cleared, a.last.uploads, last, end, comparison);
        lemma_pass(cleared, a.last.uploads, last, end, comparison);
        assert forall|i: int| 0 <= i < n implies uploads[i] == a.last.uploads[i] by {
            assert(uploads.take(n)[i] == uploads[i]);
        }
    }
    assert(drawn_tallest_first(uploads, uploads_before.len() as int, n));
}

/// The height of the glyph of an upload.
pub open spec fn upload_height(u: Upload) -> int {
    height_of((u.font_id, u.glyph))
}

/// At every moment of a run, what has been drawn stands in the order of its heights,
/// and none of it is less high than what comes next.
proof fn lemma_run_heights(
    queue: Seq<(usize, PositionedGlyph)>,
    run: Seq<Moment>,
    comparison: Comparison,
    k: int,
)
    requires
        is_run(queue, run, comparison),
        run[0].cache.wf(),
        run[0].cache.queue == queue,
        tallest_first(queue),
        0 <= k < run.len(),
    ensures
        forall|i: int, j: int|
            run[0].uploads.len() <= i < j < run[k].uploads.len() ==> upload_height(
                #[trigger] run[k].uploads[i],
            ) >= upload_height(#[trigger] run[k].uploads[j]),
        forall|i: int, j: int|
            run[0].uploads.len() <= i < run[k].uploads.len() && k <= j < queue.len()
                ==> upload_height(#[trigger] run[k].uploads[i]) >= height_of(#[trigger] queue[j]),
    decreases k,
{
    if k > 0 {
        let (before, after) = (run[k - 1], run[k]);
        let queued = queue[k - 1];
        lemma_run(queue, run, comparison, k - 1);
        lemma_run_heights(queue, run, comparison, k - 1);
        assert(deals_with(run[k - 1], queue[k - 1], run[k - 1 + 1], comparison));
        assert(before.cache.queue[k - 1] == queued);
        lemma_deals_with(before, queued, after, comparison);
        if after.uploads != before.uploads {
            let last = after.uploads.len() - 1;
            assert forall|i: int| 0 <= i < last implies after.uploads[i] == before.uploads[i] by {
                assert(after.uploads.drop_last()[i] == after.uploads[i]);
            }
            assert(upload_height(after.uploads[last]) == height_of(queued));
        }
    }
}

/// There is said to be no room only if the glyphs of the queue, tallest first, do not
/// all fit a cleared cache.
pub proof fn law_no_room_is_true(
    before: CacheView,
    uploads_before: Seq<Upload>,
    after: CacheView,
    uploads: Seq<Upload>,
    result: Result<(), CacheWriteErr>,
    comparison: Comparison,
)
    requires
        before.wf(),
        caches_queue(before, uploads_before, after, uploads, result, comparison),
        result == Err::<(), CacheWriteErr>(CacheWriteErr::NoRoomForWholeQueue),
    ensures
        exists|start: CacheView, drawn: Seq<Upload>, last: Moment| #[trigger]
            is_pass(start, drawn, last, PassEnd::Stuck, comparison) && sorts_queue(
                before.cleared(),
                start,
            ),
{
    let a = lemma_last_attempt(before, uploads_before, after, uploads, result, comparison);
    assert(is_pass(a.start, a.uploads, a.last, PassEnd::Stuck, comparison));
    assert(sorts_queue(before.cleared(), a.start));
}

/// Rows in use stay, and so do their glyphs: at every later moment of a run they are
/// where they were.
pub proof fn law_rows_in_use_stay(
    queue: Seq<(usize, PositionedGlyph)>,
    run: Seq<Moment>,
    comparison: Comparison,
    i: int,
    k: int,
    top: u32,
)
    requires
        is_run(queue, run, comparison),
        run[0].cache.wf(),
        run[0].cache.queue == queue,
        uses_rows(run[0]),
        0 <= i <= k < run.len(),
        run[i].in_use.contains(top),
    ensures
        run[k].in_use.contains(top),
        keeps_row(run[i].cache, run[k].cache, top),
    decreases k,
{
    if i == k {
        lemma_run_uses_rows(queue, run, comparison, k);
        let glyphs = run[k].cache.rows[top].glyphs;
        assert(glyphs =~= glyphs.subrange(0, glyphs.len() as int));
    } else {
        law_rows_in_use_stay(queue, run, comparison, i, k - 1, top);
        lemma_run(queue, run, comparison, k - 1);
        lemma_run_uses_rows(queue, run, comparison, k - 1);
        assert(deals_with(run[k - 1], queue[k - 1], run[k - 1 + 1], comparison));
        assert(run[k - 1].cache.queue[k - 1] == queue[k - 1]);
        lemma_deals_with(run[k - 1], queue[k - 1], run[k], comparison);
        lemma_deals_with_rows(run[k - 1], queue[k - 1], run[k], comparison);
        assert(keeps_row(run[k - 1].cache, run[k].cache, top));
        let first = run[i].cache.rows[top].glyphs;
        let middle = run[k - 1].cache.rows[top].glyphs;
        let last = run[k].cache.rows[top].glyphs;
        assert forall|j: int| 0 <= j < first.len() implies first[j] == last[j] by {
            assert(middle.subrange(0, first.len() as int)[j] == middle[j]);
            assert(last.subrange(0, middle.len() as int)[j] == last[j]);
        }
        assert(first =~= last.subrange(0, first.len() as int));
    }
}

/// At every moment of a run the rows in use are rows of the cache.
proof fn lemma_run_uses_rows(
    queue: Seq<(usize, PositionedGlyph)>,
    run: Seq<Moment>,
    comparison: Comparison,
    k: int,
)
    requires
        is_run(queue, run, comparison),
        run[0].cache.wf(),
        run[0].cache.queue == queue,
        uses_rows(run[0]),
        0 <= k < run.len(),
    ensures
        uses_rows(run[k]),
    decreases k,
{
    if k > 0 {
        lemma_run(queue, run, comparison, k - 1);
        lemma_run_uses_rows(queue, run, comparison, k - 1);
        assert(deals_with(run[k - 1], queue[k - 1], run[k - 1 + 1], comparison));
        assert(run[k - 1].cache.queue[k - 1] == queue[k - 1]);
        lemma_deals_with_rows(run[k - 1], queue[k - 1], run[k], comparison);
    }
}

/// Dealing with a glyph makes its row the most recently used, and marks it as in use.
pub proof fn law_used_row_is_newest(
    before: Moment,
    queued: (usize, PositionedGlyph),
    after: Moment,
    comparison: Comparison,
)
    requires
        before.cache.wf(),
        queued.1.bounding_box is Some,
        queued.1.is_drawable(),
        deals_with(before, queued, after, comparison),
    ensures
        after.cache.order.len() > 0,
        after.in_use == before.in_use.insert(after.cache.order.last()),
{
    lemma_deals_with(before, queued, after, comparison);
}

} // verus!
