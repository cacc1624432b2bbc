//! What is still there after a queue was cached or refused.

use crate::arithmetic::Comparison;
use crate::caching::{
    caches_queue, deals_with, is_pass, is_run, is_run_of_pass, is_stuck, sorts_queue, Moment,
    PassEnd,
};
use crate::collections::tallest_first;
use crate::error::CacheWriteErr;
use crate::glyph::PositionedGlyph;
use crate::laws::packing::{law_uploads_are_as_large_as_their_glyphs, lines_of};
use crate::laws::queue::{drawn_tallest_first, law_uploads_are_tallest_first, upload_height};
use crate::model::CacheView;
use crate::passes::{
    is_new_cell, keeps_row, lemma_deals_with, lemma_deals_with_rows, lemma_last_attempt,
    lemma_made_room_rows, lemma_run, uses_rows, Attempt,
};
use crate::row::RowView;
use crate::upload::Upload;
use vstd::prelude::*;

verus! {

/// Whether a cell of a row is the one that an upload filled, with its glyph at its scale
/// and offset.
pub open spec fn is_filled_by(cache: CacheView, top: u32, j: int, u: Upload) -> bool {
    &&& cache.rows.contains_key(top)
    &&& 0 <= j < cache.rows[top].glyphs.len()
    &&& cache.rows[top].glyphs[j].tex_coords == u.rect
    &&& cache.rows[top].glyphs[j].font_glyph == (u.font_id, u.glyph.id)
    &&& cache.rows[top].glyphs[j].scale_offset.scale == u.glyph.scale
    &&& cache.rows[top].glyphs[j].scale_offset.offset == u.glyph.offset
}

/// Whether an upload fills a cell of a row in use.
pub open spec fn fills_row_in_use(m: Moment, u: Upload) -> bool {
    exists|top: u32, j: int| m.in_use.contains(top) && #[trigger] is_filled_by(m.cache, top, j, u)
}

/// Whether each upload from this one on fills a cell of a row in use.
pub open spec fn all_fill_rows_in_use(m: Moment, from: int) -> bool {
    forall|i: int|
        from <= i < m.uploads.len() ==> fills_row_in_use(m, #[trigger] m.uploads[i])
}

/// After one more glyph, all uploads still fill cells of rows in use.
proof fn lemma_step_fills(
    before: Moment,
    queued: (usize, PositionedGlyph),
    after: Moment,
    comparison: Comparison,
    from: int,
)
    requires
        before.cache.wf(),
        uses_rows(before),
        queued.1.bounding_box is Some,
        queued.1.is_drawable(),
        deals_with(before, queued, after, comparison),
        0 <= from <= before.uploads.len(),
        all_fill_rows_in_use(before, from),
    ensures
        all_fill_rows_in_use(after, from),
{
    lemma_deals_with(before, queued, after, comparison);
    lemma_deals_with_rows(before, queued, after, comparison);
    assert forall|i: int| from <= i < after.uploads.len() implies fills_row_in_use(
        after,
        #[trigger] after.uploads[i],
    ) by {
        if i < before.uploads.len() {
            if after.uploads != before.uploads {
                assert(after.uploads.drop_last()[i] == after.uploads[i]);
            }
            let u = before.uploads[i];
            assert(fills_row_in_use(before, u));
            let (top, j) = choose|top: u32, j: int|
                before.in_use.contains(top) && #[trigger] is_filled_by(before.cache, top, j, u);
            assert(keeps_row(before.cache, after.cache, top));
            let glyphs = before.cache.rows[top].glyphs;
            assert(after.cache.rows[top].glyphs.subrange(0, glyphs.len() as int)[j] == glyphs[j]);
            assert(is_filled_by(after.cache, top, j, u));
        } else {
            let top = after.cache.order.last();
            let j = after.cache.rows[top].glyphs.len() - 1;
            assert(is_new_cell(after, top, j));
            assert(is_filled_by(after.cache, top, j, after.uploads[i]));
        }
    }
}

/// At every moment of a run all its uploads fill cells of rows in use.
proof fn lemma_run_fills(
    queue: Seq<(usize, PositionedGlyph)>,
    run: Seq<Moment>,
    comparison: Comparison,
    k: int,
)
    requires
        is_run(queue, run, comparison),
        run[0].cache.wf(),
        run[0].cache.queue == queue,
        uses_rows(run[0]),
        0 <= k < run.len(),
    ensures
        uses_rows(run[k]),
        all_fill_rows_in_use(run[k], run[0].uploads.len() as int),
    decreases k,
{
    if k > 0 {
        lemma_run(queue, run, comparison, k - 1);
        lemma_run_fills(queue, run, comparison, k - 1);
        assert(deals_with(run[k - 1], queue[k - 1], run[k - 1 + 1], comparison));
        assert(run[k - 1].cache.queue[k - 1] == queue[k - 1]);
        lemma_deals_with_rows(run[k - 1], queue[k - 1], run[k], comparison);
        lemma_step_fills(
            run[k - 1],
            queue[k - 1],
            run[k],
            comparison,
            run[0].uploads.len() as int,
        );
    }
}

/// After a pass, however it ended, all its uploads fill cells of rows in use.
proof fn lemma_pass_fills(
    cache: CacheView,
    uploads: Seq<Upload>,
    after: Moment,
    end: PassEnd,
    comparison: Comparison,
)
    requires
        cache.wf(),
        is_pass(cache, uploads, after, end, comparison),
    ensures
        all_fill_rows_in_use(after, uploads.len() as int),
{
    let run = choose|run: Seq<Moment>| #[trigger]
        is_run_of_pass(cache, uploads, run, after, end, comparison);
    let k = run.len() - 1;
    lemma_run_fills(cache.queue, run, comparison, k);
    if end == PassEnd::Stuck {
        let last = run[k];
        let height = last.cache.padded_size(cache.queue[k].1).1;
        assert(is_stuck(last, cache.queue[k], after, comparison));
        lemma_made_room_rows(last.cache, last.in_use, height);
        assert forall|i: int| uploads.len() <= i < after.uploads.len() implies fills_row_in_use(
            after,
            #[trigger] after.uploads[i],
        ) by {
            let u = last.uploads[i];
            assert(fills_row_in_use(last, u));
            let (top, j) = choose|top: u32, j: int|
                last.in_use.contains(top) && #[trigger] is_filled_by(last.cache, top, j, u);
            assert(last.cache.rows.contains_key(top));
            assert(is_filled_by(after.cache, top, j, u));
        }
    }
}

/// Whether a glyph that was drawn is in the cache, where it was drawn.
pub open spec fn is_in_cache(cache: CacheView, u: Upload) -> bool {
    exists|top: u32, j: int| #[trigger] is_filled_by(cache, top, j, u)
}

/// What fills rows in use is in any cache with the same rows.
proof fn lemma_still_filled(m: Moment, from: int, cache: CacheView)
    requires
        all_fill_rows_in_use(m, from),
        cache.rows == m.cache.rows,
    ensures
        forall|i: int| from <= i < m.uploads.len() ==> is_in_cache(cache, #[trigger] m.uploads[i]),
{
    assert forall|i: int| from <= i < m.uploads.len() implies is_in_cache(
        cache,
        #[trigger] m.uploads[i],
    ) by {
        let u = m.uploads[i];
        assert(fills_row_in_use(m, u));
        let (top, j) = choose|top: u32, j: int|
            m.in_use.contains(top) && #[trigger] is_filled_by(m.cache, top, j, u);
        assert(is_filled_by(cache, top, j, u));
    }
}

/// Whether a pass over the queue of a cache, tallest first, starts with these rows and
/// glyphs.
pub open spec fn starts_from(start: CacheView, cache: CacheView) -> bool {
    &&& start.queue.to_multiset() == cache.queue.to_multiset()
    &&& tallest_first(start.queue)
    &&& start.rows == cache.rows
    &&& start.order == cache.order
    &&& start.all_glyphs == cache.all_glyphs
    &&& start.space_end_for_start == cache.space_end_for_start
}

/// Whether the first attempt at caching a queue got stuck, after these uploads.
pub open spec fn first_gets_stuck(
    before: CacheView,
    uploads_before: Seq<Upload>,
    uploads: Seq<Upload>,
    comparison: Comparison,
) -> bool {
    exists|start: CacheView, last: Moment|
        {
            &&& starts_from(start, before)
            &&& #[trigger] is_pass(start, uploads_before, last, PassEnd::Stuck, comparison)
            &&& last.uploads == uploads
        }
}

/// Whatever comes of caching a queue, the cache holds afterwards what the last attempt
/// left, and all that this drew is in it, where it was drawn. The last attempt is the
/// first, on the cache as it was, unless that got stuck. Then it starts without any rows.
pub proof fn law_what_was_drawn_last_is_cached(
    before: CacheView,
    uploads_before: Seq<Upload>,
    after: CacheView,
    uploads: Seq<Upload>,
    result: Result<(), CacheWriteErr>,
    comparison: Comparison,
) -> (a: Attempt)
    requires
        before.wf(),
        caches_queue(before, uploads_before, after, uploads, result, comparison),
    ensures
        is_pass(a.start, a.uploads, a.last, a.end, comparison),
        starts_from(a.start, before) && a.uploads == uploads_before || a.start.rows == Map::<
            u32,
            RowView,
        >::empty() && first_gets_stuck(before, uploads_before, a.uploads, comparison),
        uploads == a.last.uploads,
        after.rows == a.last.cache.rows,
        after.order == a.last.cache.order,
        after.all_glyphs == a.last.cache.all_glyphs,
        after.space_end_for_start == a.last.cache.space_end_for_start,
        forall|i: int|
            a.uploads.len() <= i < uploads.len() ==> is_in_cache(after, #[trigger] uploads[i]),
        result is Ok <==> a.end == PassEnd::Done,
{
    let a = lemma_last_attempt(before, uploads_before, after, uploads, result, comparison);
    lemma_pass_fills(a.start, a.uploads, a.last, a.end, comparison);
    lemma_still_filled(a.last, a.uploads.len() as int, after);
    if !(sorts_queue(before, a.start) && a.uploads == uploads_before) {
        let (sorted, stuck) = choose|sorted: CacheView, stuck: Moment|
            {
                &&& sorts_queue(before, sorted)
                &&& #[trigger] is_pass(sorted, uploads_before, stuck, PassEnd::Stuck, comparison)
                &&& a.start == stuck.cache.cleared()
                &&& a.uploads == stuck.uploads
            };
        assert(starts_from(sorted, before));
        assert(first_gets_stuck(before, uploads_before, a.uploads, comparison));
    }
    a
}

/// The lines of an upload.
pub open spec fn lines_of_upload(u: Upload) -> int {
    u.rect.max.y - u.rect.min.y
}

/// Whether no upload of this range has more lines than an earlier one.
pub open spec fn get_no_higher(uploads: Seq<Upload>, from: int, to: int) -> bool {
    forall|i: int, k: int|
        from <= i < k < to ==> lines_of_upload(#[trigger] uploads[i]) >= lines_of_upload(
            #[trigger] uploads[k],
        )
}

/// The uploads of a call get no higher, but for one new start after a first attempt that
/// got stuck.
pub proof fn law_uploads_get_no_higher(
    before: CacheView,
    uploads_before: Seq<Upload>,
    after: CacheView,
    uploads: Seq<Upload>,
    result: Result<(), CacheWriteErr>,
    comparison: Comparison,
) -> (n: int)
    requires
        before.wf(),
        caches_queue(before, uploads_before, after, uploads, result, comparison),
    ensures
        uploads_before.len() <= n <= uploads.len(),
        get_no_higher(uploads, uploads_before.len() as int, n),
        get_no_higher(uploads, n, uploads.len() as int),
{
    law_uploads_are_tallest_first(before, uploads_before, after, uploads, result, comparison);
    let from = uploads_before.len() as int;
    let n = choose|n: int|
        {
            &&& from <= n <= uploads.len()
            &&& #[trigger] drawn_tallest_first(uploads, from, n)
            &&& drawn_tallest_first(uploads, n, uploads.len() as int)
        };
    assert forall|i: int| from <= i < uploads.len() implies lines_of_upload(#[trigger] uploads[i])
        == upload_height(uploads[i]) + lines_of_padding(before) by {
        law_uploads_are_as_large_as_their_glyphs(
            before,
            uploads_before,
            after,
            uploads,
            result,
            comparison,
            i,
        );
        let queued = (uploads[i].font_id, uploads[i].glyph);
        let j = choose|j: int| 0 <= j < before.queue.len() && before.queue[j] == queued;
        assert(before.queue[j].1.bounding_box is Some);
        assert(lines_of_upload(uploads[i]) == lines_of(before, uploads[i].glyph));
    }
    n
}

/// The lines of padding that a glyph takes.
pub open spec fn lines_of_padding(cache: CacheView) -> int {
    if cache.pad_glyphs {
        2
    } else {
        0
    }
}

} // verus!
