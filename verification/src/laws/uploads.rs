//! What becomes of the glyphs that were drawn.

use crate::arithmetic::Comparison;
use crate::caching::{
    caches_queue, deals_with, finds_row, is_pass, is_run, is_run_of_pass, newest_fit, readies_row,
    Moment, PassEnd,
};
use crate::error::CacheWriteErr;
use crate::glyph::PositionedGlyph;
use crate::glyph_tree::{below, lemma_below, lemma_inserted, TreeEntry};
use crate::laws::finding::{has_entry, is_read_at, law_own_cell_is_read};
use crate::model::CacheView;
use crate::nearness::{agrees, knows_itself, lemma_evicted_adds_none, Near};
use crate::passes::{
    lemma_caching, lemma_last_attempt, lemma_made_room_rows, lemma_pass, lemma_readies_row,
    lemma_readies_row_rows, lemma_run, lemma_tree,
};
use crate::row::font_glyph_key_spec;
use crate::upload::Upload;
use vstd::prelude::*;

verus! {

/// Whether an upload draws a glyph of this key and rank.
pub open spec fn draws_version(u: Upload, key: u128, rank: int) -> bool {
    &&& font_glyph_key_spec((u.font_id, u.glyph.id)) == key
    &&& u.glyph.spec().rank_spec() == rank
}

/// Whether an upload is the last to draw a glyph of this key and rank.
pub open spec fn is_last_upload(history: Seq<Upload>, key: u128, rank: int, i: int) -> bool {
    &&& 0 <= i < history.len()
    &&& draws_version(history[i], key, rank)
    &&& forall|j: int| i < j < history.len() ==> !draws_version(#[trigger] history[j], key, rank)
}

/// Whether an entry of the index names the cell that the last upload of its glyph
/// filled.
pub open spec fn stands_where_drawn(
    history: Seq<Upload>,
    cache: CacheView,
    key: u128,
    e: TreeEntry,
) -> bool {
    exists|i: int| #[trigger]
        is_last_upload(history, key, e.rank(), i) && history[i].rect == cache.info(e).tex_coords
}

/// Whether all entries of the index name the cells that the last uploads of their glyphs
/// filled.
pub open spec fn index_follows(history: Seq<Upload>, cache: CacheView) -> bool {
    forall|key: u128, e: TreeEntry| #[trigger]
        cache.tree(key).contains(e) ==> stands_where_drawn(history, cache, key, e)
}

/// Making room puts no entry into the index.
proof fn lemma_made_room_adds_none(
    cache: CacheView,
    in_use: Set<u32>,
    height: int,
    key: u128,
    e: TreeEntry,
)
    requires
        cache.wf(),
        cache.made_room(in_use, height).0.tree(key).contains(e),
    ensures
        cache.tree(key).contains(e),
    decreases cache.order.len(),
{
    if cache.order.len() > 0 && !in_use.contains(cache.order[0]) {
        let next = cache.evicted();
        cache.lemma_evicted();
        if next.is_gap(cache.evicted_gap(), height) {
            assert(cache.made_room(in_use, height).0 == next);
        } else {
            assert(cache.made_room(in_use, height).0 == next.made_room(in_use, height).0);
            lemma_made_room_adds_none(next, in_use, height, key, e);
        }
        lemma_evicted_adds_none(cache, key, e);
    }
}

/// Where room was made the index still follows the uploads.
proof fn lemma_made_room_follows(
    history: Seq<Upload>,
    cache: CacheView,
    in_use: Set<u32>,
    height: int,
    after: CacheView,
)
    requires
        cache.wf(),
        after.wf(),
        index_follows(history, cache),
        after == cache.made_room(in_use, height).0,
        forall|t: u32| #[trigger]
            after.rows.contains_key(t) ==> cache.rows.contains_key(t) && after.rows[t]
                == cache.rows[t],
    ensures
        index_follows(history, after),
{
    assert forall|key: u128, e: TreeEntry| #[trigger]
        after.tree(key).contains(e) implies stands_where_drawn(history, after, key, e) by {
        lemma_made_room_adds_none(cache, in_use, height, key, e);
        lemma_tree(after, key);
        assert(after.is_located(key, e));
        assert(stands_where_drawn(history, cache, key, e));
        let i = choose|i: int| #[trigger]
            is_last_upload(history, key, e.rank(), i) && history[i].rect == cache.info(
                e,
            ).tex_coords;
        assert(is_last_upload(history, key, e.rank(), i));
    }
}

/// A row found for a glyph leaves an index that follows the uploads.
proof fn lemma_readies_row_follows(
    history: Seq<Upload>,
    cache: CacheView,
    in_use: Set<u32>,
    width: int,
    height: int,
    ready: CacheView,
    top: u32,
)
    requires
        cache.wf(),
        0 <= height <= cache.height,
        0 <= width <= cache.width,
        readies_row(cache, in_use, width, height, ready, top),
        index_follows(history, cache),
    ensures
        index_follows(history, ready),
{
    lemma_readies_row(cache, in_use, width, height, ready, top);
    lemma_readies_row_rows(cache, in_use, width, height, ready, top);
    assert forall|key: u128, e: TreeEntry| #[trigger]
        ready.tree(key).contains(e) implies stands_where_drawn(history, ready, key, e) by {
        if newest_fit(cache, cache.order, width, height) is None {
            if cache.has_gap(height) {
                assert(cache.tree(key).contains(e));
            } else {
                assert(cache.made_room(in_use, height).0.tree(key).contains(e));
                lemma_made_room_adds_none(cache, in_use, height, key, e);
            }
        }
        lemma_tree(ready, key);
        assert(ready.is_located(key, e));
        assert(ready.rows.contains_key(e.row));
        assert(stands_where_drawn(history, cache, key, e));
        let i = choose|i: int| #[trigger]
            is_last_upload(history, key, e.rank(), i) && history[i].rect == cache.info(
                e,
            ).tex_coords;
        assert(is_last_upload(history, key, e.rank(), i));
    }
}

/// Placing a glyph that is drawn leaves an index that follows the uploads.
proof fn lemma_placed_follows(
    history: Seq<Upload>,
    ready: CacheView,
    top: u32,
    width: u32,
    height: u32,
    queued: (usize, PositionedGlyph),
)
    requires
        ready.wf(),
        ready.rows.contains_key(top),
        ready.rows[top].glyphs.len() < usize::MAX,
        index_follows(history, ready),
    ensures
        index_follows(
            history.push(
                Upload {
                    rect: ready.cell(top, width, height),
                    font_id: queued.0,
                    glyph: queued.1,
                },
            ),
            ready.placed(top, width, height, (queued.0, queued.1.id), queued.1),
        ),
{
    let u = Upload {
        rect: ready.cell(top, width, height),
        font_id: queued.0,
        glyph: queued.1,
    };
    let after = ready.placed(top, width, height, (queued.0, queued.1.id), queued.1);
    let longer = history.push(u);
    let new_key = font_glyph_key_spec((queued.0, queued.1.id));
    let spec = queued.1.spec();
    let n = ready.rows[top].glyphs.len() as usize;
    lemma_tree(ready, new_key);
    lemma_inserted(ready.tree(new_key), spec, top, n);
    assert forall|key: u128, e: TreeEntry| #[trigger]
        after.tree(key).contains(e) implies stands_where_drawn(longer, after, key, e) by {
        if key == new_key && e.rank() == spec.rank_spec() {
            assert(e.row == top && e.index == n);
            assert(draws_version(longer[history.len() as int], key, e.rank()));
            assert(is_last_upload(longer, key, e.rank(), history.len() as int));
        } else {
            assert(ready.tree(key).contains(e));
            lemma_tree(ready, key);
            assert(ready.is_located(key, e));
            assert(stands_where_drawn(history, ready, key, e));
            let i = choose|i: int| #[trigger]
                is_last_upload(history, key, e.rank(), i) && history[i].rect == ready.info(
                    e,
                ).tex_coords;
            assert(longer[i] == history[i]);
            assert(after.info(e) == ready.info(e));
            assert forall|j: int| i < j < longer.len() implies !draws_version(
                #[trigger] longer[j],
                key,
                e.rank(),
            ) by {
                if j < history.len() {
                    assert(longer[j] == history[j]);
                }
            }
            assert(is_last_upload(longer, key, e.rank(), i));
        }
    }
}

/// After dealing with a glyph the index still follows the uploads.
proof fn lemma_deals_with_follows(
    before: Moment,
    queued: (usize, PositionedGlyph),
    after: Moment,
    comparison: Comparison,
)
    requires
        before.cache.wf(),
        queued.1.bounding_box is Some,
        queued.1.is_drawable(),
        deals_with(before, queued, after, comparison),
        index_follows(before.uploads, before.cache),
    ensures
        index_follows(after.uploads, after.cache),
{
    let cache = before.cache;
    let (width, height) = cache.padded_size(queued.1);
    if exists|top: u32| #[trigger]
        finds_row(cache, queued, comparison, Some(top)) && after == before.found(top) {
        lemma_follows_elsewhere(before.uploads, cache, after.cache);
    } else {
        let (ready, top) = choose|ready: CacheView, top: u32|
            {
                &&& #[trigger] readies_row(cache, before.in_use, width, height, ready, top)
                &&& ready.rows[top].glyphs.len() < usize::MAX
                &&& after == before.added(ready, top, queued)
            };
        lemma_readies_row(cache, before.in_use, width, height, ready, top);
        lemma_readies_row_follows(
            before.uploads,
            cache,
            before.in_use,
            width,
            height,
            ready,
            top,
        );
        lemma_placed_follows(
            before.uploads,
            ready,
            top,
            width as u32,
            height as u32,
            queued,
        );
    }
}

/// An index that follows the uploads does so where neither it nor the rows change.
proof fn lemma_follows_elsewhere(history: Seq<Upload>, cache: CacheView, other: CacheView)
    requires
        index_follows(history, cache),
        other.rows == cache.rows,
        other.all_glyphs == cache.all_glyphs,
    ensures
        index_follows(history, other),
{
    assert forall|key: u128, e: TreeEntry| #[trigger]
        other.tree(key).contains(e) implies stands_where_drawn(history, other, key, e) by {
        assert(cache.tree(key).contains(e));
        assert(stands_where_drawn(history, cache, key, e));
        let i = choose|i: int| #[trigger]
            is_last_upload(history, key, e.rank(), i) && history[i].rect == cache.info(
                e,
            ).tex_coords;
        assert(is_last_upload(history, key, e.rank(), i));
    }
}

/// At every moment of a run the index follows the uploads.
proof fn lemma_run_follows(
    queue: Seq<(usize, PositionedGlyph)>,
    run: Seq<Moment>,
    comparison: Comparison,
    k: int,
)
    requires
        is_run(queue, run, comparison),
        run[0].cache.wf(),
        run[0].cache.queue == queue,
        index_follows(run[0].uploads, run[0].cache),
        0 <= k < run.len(),
    ensures
        index_follows(run[k].uploads, run[k].cache),
    decreases k,
{
    if k > 0 {
        lemma_run(queue, run, comparison, k - 1);
        lemma_run_follows(queue, run, comparison, k - 1);
        assert(deals_with(run[k - 1], queue[k - 1], run[k - 1 + 1], comparison));
        assert(run[k - 1].cache.queue[k - 1] == queue[k - 1]);
        lemma_deals_with_follows(run[k - 1], queue[k - 1], run[k], comparison);
    }
}

/// After a pass the index follows the uploads.
proof fn lemma_pass_follows(
    cache: CacheView,
    uploads: Seq<Upload>,
    after: Moment,
    end: PassEnd,
    comparison: Comparison,
)
    requires
        cache.wf(),
        is_pass(cache, uploads, after, end, comparison),
        index_follows(uploads, cache),
    ensures
        index_follows(after.uploads, after.cache),
{
    let run = choose|run: Seq<Moment>| #[trigger]
        is_run_of_pass(cache, uploads, run, after, end, comparison);
    let k = run.len() - 1;
    lemma_run(cache.queue, run, comparison, k);
    lemma_run_follows(cache.queue, run, comparison, k);
    if end == PassEnd::Stuck {
        let last = run[k];
        let (width, height) = last.cache.padded_size(cache.queue[k].1);
        lemma_pass(cache, uploads, after, end, comparison);
        lemma_made_room_rows(last.cache, last.in_use, height);
        lemma_made_room_follows(last.uploads, last.cache, last.in_use, height, after.cache);
    }
}

/// Whatever was drawn before, the index of a new or cleared cache follows the uploads.
pub proof fn law_new_index_follows_uploads(cache: CacheView, history: Seq<Upload>)
    ensures
        index_follows(history, cache.cleared()),
{
}

/// Every entry of the index names the cell that the last upload of its glyph filled.
/// Caching a queue keeps that so, whether it succeeds or not.
pub proof fn law_index_follows_uploads(
    before: CacheView,
    uploads_before: Seq<Upload>,
    after: CacheView,
    uploads: Seq<Upload>,
    result: Result<(), CacheWriteErr>,
    comparison: Comparison,
)
    requires
        before.wf(),
        index_follows(uploads_before, before),
        caches_queue(before, uploads_before, after, uploads, result, comparison),
    ensures
        index_follows(uploads, after),
{
    let a = lemma_last_attempt(before, uploads_before, after, uploads, result, comparison);
    if a.start.rows == before.rows && a.start.all_glyphs == before.all_glyphs && a.uploads
        == uploads_before {
        lemma_follows_elsewhere(uploads_before, before, a.start);
    } else {
        assert forall|key: u128, e: TreeEntry| !#[trigger] a.start.tree(key).contains(e) by {
            if a.start.tree(key).contains(e) {
                lemma_tree(a.start, key);
                assert(a.start.is_located(key, e));
            }
        }
    }
    lemma_pass_follows(a.start, a.uploads, a.last, a.end, comparison);
    lemma_follows_elsewhere(uploads, a.last.cache, after);
}

/// That every entry names the cell of the last upload stays so where neither the index
/// nor the rows change: when glyphs are queued, when the queue is cleared, and when
/// tolerances are set.
pub proof fn law_index_follows_uploads_otherwise(
    cache: CacheView,
    other: CacheView,
    history: Seq<Upload>,
)
    requires
        index_follows(history, cache),
        other.rows == cache.rows,
        other.all_glyphs == cache.all_glyphs,
    ensures
        index_follows(history, other),
{
    lemma_follows_elsewhere(history, cache, other);
}

/// As long as a glyph is in the cache, it is read from the pixels that its last upload
/// filled, however many queues were cached since.
pub proof fn law_last_upload_is_read(
    cache: CacheView,
    history: Seq<Upload>,
    queued: (usize, PositionedGlyph),
    comparison: Comparison,
    near: Near,
    i: int,
)
    requires
        cache.wf(),
        index_follows(history, cache),
        queued.1.bounding_box is Some,
        agrees(comparison, near),
        knows_itself(near, queued.1.spec().rank_spec()),
        has_entry(cache, queued),
        is_last_upload(
            history,
            font_glyph_key_spec((queued.0, queued.1.id)),
            queued.1.spec().rank_spec(),
            i,
        ),
    ensures
        is_read_at(cache, queued, history[i].rect, comparison),
{
    let key = font_glyph_key_spec((queued.0, queued.1.id));
    let rank = queued.1.spec().rank_spec();
    let tree = cache.tree(key);
    lemma_tree(cache, key);
    lemma_below(tree, rank);
    let e = tree[below(tree, rank)];
    assert(tree.contains(e));
    assert(stands_where_drawn(history, cache, key, e));
    let last = choose|last: int| #[trigger]
        is_last_upload(history, key, e.rank(), last) && history[last].rect == cache.info(
            e,
        ).tex_coords;
    assert(last == i) by {
        if last < i {
            assert(!draws_version(history[i], key, rank));
        } else if i < last {
            assert(!draws_version(history[last], key, rank));
        }
    }
    law_own_cell_is_read(cache, queued, near, e, comparison);
}

/// After caching a queue, every glyph that is in the cache and near itself is read from
/// the pixels that its last upload filled, whether that was asked for by this call or by
/// an earlier one.
pub proof fn law_uploads_are_read_back(
    before: CacheView,
    uploads_before: Seq<Upload>,
    after: CacheView,
    uploads: Seq<Upload>,
    result: Result<(), CacheWriteErr>,
    comparison: Comparison,
    near: Near,
    i: int,
    later: Comparison,
)
    requires
        before.wf(),
        index_follows(uploads_before, before),
        caches_queue(before, uploads_before, after, uploads, result, comparison),
        agrees(later, near),
        0 <= i < uploads.len(),
        uploads[i].glyph.bounding_box is Some,
        knows_itself(near, uploads[i].glyph.spec().rank_spec()),
        has_entry(after, (uploads[i].font_id, uploads[i].glyph)),
        is_last_upload(
            uploads,
            font_glyph_key_spec((uploads[i].font_id, uploads[i].glyph.id)),
            uploads[i].glyph.spec().rank_spec(),
            i,
        ),
    ensures
        is_read_at(after, (uploads[i].font_id, uploads[i].glyph), uploads[i].rect, later),
{
    let queued = (uploads[i].font_id, uploads[i].glyph);
    lemma_caching(before, uploads_before, after, uploads, result, comparison);
    law_index_follows_uploads(before, uploads_before, after, uploads, result, comparison);
    law_last_upload_is_read(after, uploads, queued, later, near, i);
}

} // verus!
