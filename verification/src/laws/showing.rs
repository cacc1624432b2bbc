//! What the texture shows.
//!
//! A texture is taken here to be what its uploads make of it, drawn one over another
//! from the first one on.

use crate::arithmetic::Comparison;
use crate::caching::{caches_queue, deals_with, is_pass, is_run, is_run_of_pass, Moment, PassEnd};
use crate::error::{CacheReadErr, CacheWriteErr};
use crate::geometry::Rect;
use crate::glyph::PositionedGlyph;
use crate::glyph_tree::{lemma_below, TreeEntry};
use crate::laws::numbers::law_keys_are_distinct;
use crate::laws::texture::law_cells_do_not_overlap;
use crate::model::CacheView;
use crate::nearness::{agrees, Near};
use crate::passes::{
    draws, is_new_cell, keeps_row, lemma_deals_with, lemma_deals_with_rows, lemma_last_attempt,
    lemma_made_room_rows, lemma_run, lemma_tree, uses_rows,
};
use crate::reading::{glyph_rect, is_answer, read_result, reads, search_ends, TextureMatch};
use crate::row::{font_glyph_key_spec, GlyphTexInfo};
use crate::upload::Upload;
use vstd::prelude::*;

verus! {

/// Whether two rectangles have no pixel in common.
pub open spec fn are_apart(a: Rect<u32>, b: Rect<u32>) -> bool {
    forall|x: int, y: int| !(#[trigger] a.has_pixel(x, y) && b.has_pixel(x, y))
}

/// Whether an upload drew the glyph of a cell, and no later one touches it.
pub open spec fn is_shown(history: Seq<Upload>, info: GlyphTexInfo, i: int) -> bool {
    &&& 0 <= i < history.len()
    &&& draws(history[i], info)
    &&& forall|j: int|
        i < j < history.len() ==> are_apart((#[trigger] history[j]).rect, info.tex_coords)
}

/// Whether some upload drew the glyph of a cell, and no later one touches it.
pub open spec fn has_been_drawn(history: Seq<Upload>, info: GlyphTexInfo) -> bool {
    exists|i: int| #[trigger] is_shown(history, info, i)
}

/// Whether the texture shows in every cell the glyph that the cache has there.
pub open spec fn shows(history: Seq<Upload>, cache: CacheView) -> bool {
    forall|top: u32, j: int|
        #![trigger cache.rows[top].glyphs[j]]
        cache.rows.contains_key(top) && 0 <= j < cache.rows[top].glyphs.len() ==> has_been_drawn(
            history,
            cache.rows[top].glyphs[j],
        )
}

/// Dealing with a glyph keeps the texture up to date.
proof fn lemma_deals_with_shows(
    before: Moment,
    queued: (usize, PositionedGlyph),
    after: Moment,
    comparison: Comparison,
)
    requires
        before.cache.wf(),
        uses_rows(before),
        queued.1.bounding_box is Some,
        queued.1.is_drawable(),
        deals_with(before, queued, after, comparison),
        shows(before.uploads, before.cache),
    ensures
        shows(after.uploads, after.cache),
{
    lemma_deals_with(before, queued, after, comparison);
    lemma_deals_with_rows(before, queued, after, comparison);
    assert forall|top: u32, j: int|
        #![trigger after.cache.rows[top].glyphs[j]]
        after.cache.rows.contains_key(top) && 0 <= j
            < after.cache.rows[top].glyphs.len() implies has_been_drawn(
        after.uploads,
        after.cache.rows[top].glyphs[j],
    ) by {
        let info = after.cache.rows[top].glyphs[j];
        let last = after.uploads.len() - 1;
        if after.uploads.len() > before.uploads.len() && is_new_cell(after, top, j) {
            assert(is_shown(after.uploads, info, last));
        } else {
            assert(before.cache.rows[top].glyphs[j] == info);
            let i = choose|i: int| #[trigger] is_shown(before.uploads, info, i);
            if after.uploads != before.uploads {
                let new = after.cache.order.last();
                let n = after.cache.rows[new].glyphs.len() - 1;
                assert(is_new_cell(after, new, n));
                assert(are_apart(after.uploads[last].rect, info.tex_coords)) by {
                    assert forall|x: int, y: int|
                        !(#[trigger] after.uploads[last].rect.has_pixel(x, y)
                            && info.tex_coords.has_pixel(x, y)) by {
                        law_cells_do_not_overlap(after.cache, top, j, new, n, x, y);
                    }
                }
                assert forall|k: int| 0 <= k < last implies after.uploads[k]
                    == before.uploads[k] by {
                    assert(after.uploads.drop_last()[k] == after.uploads[k]);
                }
            }
            assert(is_shown(after.uploads, info, i));
        }
    }
}

/// At every moment of a run the texture is up to date.
proof fn lemma_run_shows(
    queue: Seq<(usize, PositionedGlyph)>,
    run: Seq<Moment>,
    comparison: Comparison,
    k: int,
)
    requires
        is_run(queue, run, comparison),
        run[0].cache.wf(),
        run[0].cache.queue == queue,
        uses_rows(run[0]),
        shows(run[0].uploads, run[0].cache),
        0 <= k < run.len(),
    ensures
        uses_rows(run[k]),
        shows(run[k].uploads, run[k].cache),
    decreases k,
{
    if k > 0 {
        lemma_run(queue, run, comparison, k - 1);
        lemma_run_shows(queue, run, comparison, k - 1);
        assert(deals_with(run[k - 1], queue[k - 1], run[k - 1 + 1], comparison));
        assert(run[k - 1].cache.queue[k - 1] == queue[k - 1]);
        lemma_deals_with_rows(run[k - 1], queue[k - 1], run[k], comparison);
        lemma_deals_with_shows(run[k - 1], queue[k - 1], run[k], comparison);
    }
}

/// A pass keeps the texture up to date.
proof fn lemma_pass_shows(
    cache: CacheView,
    uploads: Seq<Upload>,
    after: Moment,
    end: PassEnd,
    comparison: Comparison,
)
    requires
        cache.wf(),
        is_pass(cache, uploads, after, end, comparison),
        shows(uploads, cache),
    ensures
        shows(after.uploads, after.cache),
{
    let run = choose|run: Seq<Moment>| #[trigger]
        is_run_of_pass(cache, uploads, run, after, end, comparison);
    let k = run.len() - 1;
    lemma_run_shows(cache.queue, run, comparison, k);
    if end == PassEnd::Stuck {
        let last = run[k];
        let (width, height) = last.cache.padded_size(cache.queue[k].1);
        lemma_made_room_rows(last.cache, last.in_use, height);
        assert forall|top: u32, j: int|
            #![trigger after.cache.rows[top].glyphs[j]]
            after.cache.rows.contains_key(top) && 0 <= j
                < after.cache.rows[top].glyphs.len() implies has_been_drawn(
            after.uploads,
            after.cache.rows[top].glyphs[j],
        ) by {
            assert(last.cache.rows[top].glyphs[j] == after.cache.rows[top].glyphs[j]);
        }
    }
}

/// Whatever was drawn into it, the texture of a new or cleared cache is up to date.
pub proof fn law_nothing_is_shown_at_first(cache: CacheView, history: Seq<Upload>)
    ensures
        shows(history, cache.cleared()),
{
}

/// If the texture shows every cached glyph before a queue is cached, and the uploads
/// are drawn in order, it does so afterwards, whether caching succeeds or not.
pub proof fn law_texture_stays_current(
    before: CacheView,
    uploads_before: Seq<Upload>,
    after: CacheView,
    uploads: Seq<Upload>,
    result: Result<(), CacheWriteErr>,
    comparison: Comparison,
)
    requires
        before.wf(),
        caches_queue(before, uploads_before, after, uploads, result, comparison),
        shows(uploads_before, before),
    ensures
        shows(uploads, after),
{
    let a = lemma_last_attempt(before, uploads_before, after, uploads, result, comparison);
    assert forall|top: u32, j: int|
        #![trigger a.start.rows[top].glyphs[j]]
        a.start.rows.contains_key(top) && 0 <= j
            < a.start.rows[top].glyphs.len() implies has_been_drawn(
        a.uploads,
        a.start.rows[top].glyphs[j],
    ) by {
        assert(before.rows[top].glyphs[j] == a.start.rows[top].glyphs[j]);
    }
    lemma_pass_shows(a.start, a.uploads, a.last, a.end, comparison);
    assert forall|top: u32, j: int|
        #![trigger after.rows[top].glyphs[j]]
        after.rows.contains_key(top) && 0 <= j < after.rows[top].glyphs.len() implies has_been_drawn(
        uploads,
        after.rows[top].glyphs[j],
    ) by {
        assert(a.last.cache.rows[top].glyphs[j] == after.rows[top].glyphs[j]);
    }
}

/// Whether the pixels that are read for a glyph were drawn for this entry of the
/// index: for a glyph of the same font and number, at the scale and offset of the
/// entry, which is near that of the glyph asked for.
pub open spec fn is_read_from(
    cache: CacheView,
    history: Seq<Upload>,
    queued: (usize, PositionedGlyph),
    near: Near,
    found: TextureMatch,
    e: TreeEntry,
) -> bool {
    let info = cache.info(e);
    &&& has_been_drawn(history, info)
    &&& info.font_glyph == (queued.0, queued.1.id)
    &&& info.scale_offset.rank_spec() == e.spec.rank_spec()
    &&& near(e.spec, queued.1.spec(), cache.scale_tolerance, cache.position_tolerance)
    &&& found.tex_rect == glyph_rect(cache, e)
}

/// What is read for a glyph is a place where the texture shows it, or a version of it
/// that is near enough.
pub proof fn law_what_is_read_is_shown(
    cache: CacheView,
    history: Seq<Upload>,
    queued: (usize, PositionedGlyph),
    comparison: Comparison,
    near: Near,
    found: TextureMatch,
)
    requires
        cache.wf(),
        shows(history, cache),
        agrees(comparison, near),
        reads(cache, queued.0, queued.1, comparison, Ok(Some(found))),
    ensures
        exists|e: TreeEntry| #[trigger] is_read_from(cache, history, queued, near, found, e),
{
    let key = font_glyph_key_spec((queued.0, queued.1.id));
    let tree = cache.tree(key);
    let target = queued.1.spec();
    let bb = queued.1.bounding_box->0;
    let result: Result<Option<TextureMatch>, CacheReadErr> = Ok(Some(found));
    lemma_tree(cache, key);
    lemma_below(tree, target.rank_spec());
    lemma_below(tree, target.rank_spec() + 1);
    let (steps, lower, upper) = choose|
        steps: int,
        lower: Option<TreeEntry>,
        upper: Option<TreeEntry>,
    | #[trigger]
        search_ends(cache, tree, target, comparison, steps, lower, upper) && read_result(
            cache,
            lower,
            upper,
            target,
            bb,
            comparison,
            result,
        );
    let e = if lower is Some && found.tex_rect == glyph_rect(cache, lower->0) {
        lower->0
    } else {
        upper->0
    };
    assert(tree.contains(e));
    assert(cache.is_located(key, e));
    assert(is_answer(cache, Some(e), target, comparison, true));
    law_keys_are_distinct(cache.info(e).font_glyph, (queued.0, queued.1.id));
    assert(cache.rows[e.row].glyphs[e.index as int] == cache.info(e));
    assert(is_read_from(cache, history, queued, near, found, e));
}

/// Whether a rectangle is a cell of a row in use.
pub open spec fn is_cell_in_use(m: Moment, rect: Rect<u32>, top: u32, j: int) -> bool {
    &&& m.in_use.contains(top)
    &&& m.cache.rows.contains_key(top)
    &&& 0 <= j < m.cache.rows[top].glyphs.len()
    &&& m.cache.rows[top].glyphs[j].tex_coords == rect
}

/// Whether each upload from this one on fills a cell of a row in use, and no two of
/// them share a pixel.
pub open spec fn uploads_are_apart(m: Moment, from: int) -> bool {
    &&& forall|i: int|
        from <= i < m.uploads.len() ==> exists|top: u32, j: int| #[trigger]
            is_cell_in_use(m, (#[trigger] m.uploads[i]).rect, top, j)
    &&& forall|i: int, k: int|
        from <= i < k < m.uploads.len() ==> are_apart(
            (#[trigger] m.uploads[i]).rect,
            (#[trigger] m.uploads[k]).rect,
        )
}

/// After one more glyph, the uploads are still apart.
proof fn lemma_step_apart(
    before: Moment,
    queued: (usize, PositionedGlyph),
    after: Moment,
    comparison: Comparison,
    from: int,
)
    requires
        before.cache.wf(),
        uses_rows(before),
        queued.1.bounding_box is Some,
        queued.1.is_drawable(),
        deals_with(before, queued, after, comparison),
        0 <= from <= before.uploads.len(),
        uploads_are_apart(before, from),
    ensures
        uploads_are_apart(after, from),
{
    lemma_deals_with(before, queued, after, comparison);
    lemma_deals_with_rows(before, queued, after, comparison);
    let last = after.uploads.len() - 1;
    let new = after.cache.order.last();
    let n = after.cache.rows[new].glyphs.len() - 1;
    if after.uploads != before.uploads {
        assert(is_new_cell(after, new, n));
        assert forall|k: int| 0 <= k < last implies after.uploads[k] == before.uploads[k] by {
            assert(after.uploads.drop_last()[k] == after.uploads[k]);
        }
        assert(is_cell_in_use(after, after.uploads[last].rect, new, n));
    }
    assert forall|i: int| from <= i < before.uploads.len() implies exists|top: u32, j: int|
        is_cell_in_use(after, (#[trigger] before.uploads[i]).rect, top, j) && is_cell_in_use(
            before,
            before.uploads[i].rect,
            top,
            j,
        ) by {
        let rect = before.uploads[i].rect;
        let (top, j) = choose|top: u32, j: int| #[trigger] is_cell_in_use(before, rect, top, j);
        assert(keeps_row(before.cache, after.cache, top));
        let glyphs = before.cache.rows[top].glyphs;
        assert(after.cache.rows[top].glyphs.subrange(0, glyphs.len() as int)[j] == glyphs[j]);
        assert(is_cell_in_use(after, rect, top, j));
    }
    if after.uploads != before.uploads {
        assert forall|i: int| from <= i < last implies are_apart(
            (#[trigger] after.uploads[i]).rect,
            after.uploads[last].rect,
        ) by {
            let rect = before.uploads[i].rect;
            assert(after.uploads[i] == before.uploads[i]);
            let (top, j) = choose|top: u32, j: int|
                is_cell_in_use(after, rect, top, j) && is_cell_in_use(before, rect, top, j);
            assert forall|x: int, y: int|
                !(#[trigger] rect.has_pixel(x, y) && after.uploads[last].rect.has_pixel(x, y)) by {
                law_cells_do_not_overlap(after.cache, top, j, new, n, x, y);
            }
        }
    }
}

/// At every moment of a run the uploads are apart.
proof fn lemma_run_apart(
    queue: Seq<(usize, PositionedGlyph)>,
    run: Seq<Moment>,
    comparison: Comparison,
    k: int,
)
    requires
        is_run(queue, run, comparison),
        run[0].cache.wf(),
        run[0].cache.queue == queue,
        uses_rows(run[0]),
        0 <= k < run.len(),
    ensures
        uses_rows(run[k]),
        uploads_are_apart(run[k], run[0].uploads.len() as int),
    decreases k,
{
    if k > 0 {
        let from = run[0].uploads.len() as int;
        lemma_run(queue, run, comparison, k - 1);
        lemma_run_apart(queue, run, comparison, k - 1);
        assert(deals_with(run[k - 1], queue[k - 1], run[k - 1 + 1], comparison));
        assert(run[k - 1].cache.queue[k - 1] == queue[k - 1]);
        lemma_deals_with_rows(run[k - 1], queue[k - 1], run[k], comparison);
        lemma_step_apart(run[k - 1], queue[k - 1], run[k], comparison, from);
    }
}

/// No two uploads of one pass share a pixel.
pub proof fn law_uploads_do_not_overlap(
    cache: CacheView,
    uploads: Seq<Upload>,
    after: Moment,
    end: PassEnd,
    comparison: Comparison,
    i: int,
    k: int,
)
    requires
        cache.wf(),
        is_pass(cache, uploads, after, end, comparison),
        uploads.len() <= i < k < after.uploads.len(),
    ensures
        are_apart(after.uploads[i].rect, after.uploads[k].rect),
{
    let run = choose|run: Seq<Moment>| #[trigger]
        is_run_of_pass(cache, uploads, run, after, end, comparison);
    lemma_run_apart(cache.queue, run, comparison, run.len() - 1);
}

} // verus!
