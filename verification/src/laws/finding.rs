//! What is found again.

use crate::arithmetic::Comparison;
use crate::caching::{
    caches_queue, deals_with, finds_row, is_pass, is_run, is_run_of_pass, with_queue, Moment,
    PassEnd,
};
use crate::error::{CacheReadErr, CacheWriteErr};
use crate::geometry::Rect;
use crate::glyph::PositionedGlyph;
use crate::glyph_tree::{below, holds_rank, lemma_below, lemma_holds_rank, TreeEntry};
use crate::model::CacheView;
use crate::nearness::{
    agrees, has_own_cell, has_own_cells, has_stand_in, has_stand_ins, index_complete, is_indexed,
    is_kept, is_nearness, keeps_entries, knows_itself, lemma_deals_with_near,
    lemma_identical_is_found, lemma_keeps_cell, lemma_keeps_stand_in, lemma_made_room_complete,
    names_cell, points_at, stands_for, Near,
};
use crate::passes::{
    is_upload_of, lemma_caching, lemma_deals_with, lemma_first_attempt, lemma_last_attempt,
    lemma_pass, lemma_run, lemma_tree,
};
use crate::reading::{
    downward, glyph_rect, is_answer, read_result, reads, search_ends, upward, DrawnBounds,
    TextureMatch,
};
use crate::row::font_glyph_key_spec;
use crate::upload::Upload;
use vstd::prelude::*;

verus! {

/// What holds of the index at every moment of a run: it is complete, it has an entry
/// that stands for each glyph dealt with, and one that names the cell of each glyph
/// added.
proof fn lemma_run_near(
    queue: Seq<(usize, PositionedGlyph)>,
    run: Seq<Moment>,
    comparison: Comparison,
    near: Near,
    k: int,
)
    requires
        is_run(queue, run, comparison),
        run[0].cache.wf(),
        run[0].cache.queue == queue,
        index_complete(run[0].cache, near),
        agrees(comparison, near),
        is_nearness(near),
        0 <= k < run.len(),
    ensures
        index_complete(run[k].cache, near),
        has_stand_ins(run[k], queue, k, near),
        has_own_cells(run[k], run[0].uploads.len() as int, near),
    decreases k,
{
    if k > 0 {
        let before = run[k - 1];
        let after = run[k];
        let queued = queue[k - 1];
        lemma_run(queue, run, comparison, k - 1);
        lemma_run_near(queue, run, comparison, near, k - 1);
        assert(deals_with(run[k - 1], queue[k - 1], run[k - 1 + 1], comparison));
        assert(before.cache.queue[k - 1] == queued);
        lemma_deals_with(before, queued, after, comparison);
        lemma_deals_with_near(before, queued, after, comparison, near);
        lemma_step_stand_ins(queue, k - 1, before, after, near);
        lemma_step_cells(queued, run[0].uploads.len() as int, before, after, near);
    }
}

/// After one more glyph, all up to it have stand-ins.
proof fn lemma_step_stand_ins(
    queue: Seq<(usize, PositionedGlyph)>,
    k: int,
    before: Moment,
    after: Moment,
    near: Near,
)
    requires
        0 <= k < queue.len(),
        keeps_entries(before, after, near),
        has_stand_ins(before, queue, k, near),
        knows_itself(near, queue[k].1.spec().rank_spec()) ==> has_stand_in(after, near, queue[k]),
    ensures
        has_stand_ins(after, queue, k + 1, near),
{
    assert forall|i: int|
        0 <= i < k + 1 && knows_itself(
            near,
            (#[trigger] queue[i]).1.spec().rank_spec(),
        ) implies has_stand_in(after, near, queue[i]) by {
        if i < k {
            lemma_keeps_stand_in(before, after, near, queue[i]);
        }
    }
}

/// After one more glyph, all glyphs that were added have their cells.
proof fn lemma_step_cells(
    queued: (usize, PositionedGlyph),
    from: int,
    before: Moment,
    after: Moment,
    near: Near,
)
    requires
        0 <= from,
        keeps_entries(before, after, near),
        has_own_cells(before, from, near),
        after.uploads == before.uploads || {
            &&& after.uploads.len() == before.uploads.len() + 1
            &&& after.uploads.drop_last() == before.uploads
            &&& after.uploads.last().font_id == queued.0
            &&& after.uploads.last().glyph == queued.1
            &&& knows_itself(near, queued.1.spec().rank_spec()) ==> has_own_cell(
                after,
                near,
                queued,
                after.uploads.last().rect,
            )
        },
    ensures
        has_own_cells(after, from, near),
{
    assert forall|i: int|
        from <= i < after.uploads.len() && knows_itself(
            near,
            (#[trigger] after.uploads[i]).glyph.spec().rank_spec(),
        ) implies has_own_cell(
        after,
        near,
        (after.uploads[i].font_id, after.uploads[i].glyph),
        after.uploads[i].rect,
    ) by {
        let u = after.uploads[i];
        if i < before.uploads.len() {
            if after.uploads != before.uploads {
                assert(after.uploads.drop_last()[i] == u);
            }
            assert(before.uploads[i] == u);
            lemma_keeps_cell(before, after, near, (u.font_id, u.glyph), u.rect);
        } else {
            assert(u == after.uploads.last());
        }
    }
}

/// What holds of the index after a pass.
proof fn lemma_pass_near(
    cache: CacheView,
    uploads: Seq<Upload>,
    after: Moment,
    end: PassEnd,
    comparison: Comparison,
    near: Near,
)
    requires
        cache.wf(),
        index_complete(cache, near),
        agrees(comparison, near),
        is_nearness(near),
        is_pass(cache, uploads, after, end, comparison),
    ensures
        index_complete(after.cache, near),
        end == PassEnd::Done ==> has_stand_ins(
            after,
            cache.queue,
            cache.queue.len() as int,
            near,
        ),
        end == PassEnd::Done ==> has_own_cells(after, uploads.len() as int, near),
{
    let run = choose|run: Seq<Moment>| #[trigger]
        is_run_of_pass(cache, uploads, run, after, end, comparison);
    let k = run.len() - 1;
    lemma_run(cache.queue, run, comparison, k);
    lemma_run_near(cache.queue, run, comparison, near, k);
    if end == PassEnd::Stuck {
        let last = run[k];
        let (width, height) = last.cache.padded_size(cache.queue[k].1);
        lemma_made_room_complete(last.cache, near, last.in_use, height);
    }
}

/// A complete index stays so where neither the index nor the rows change: when glyphs
/// are queued, when the queue is cleared, and when tolerances are set.
pub proof fn law_index_stays_complete_otherwise(cache: CacheView, other: CacheView, near: Near)
    requires
        index_complete(cache, near),
        other.rows == cache.rows,
        other.all_glyphs == cache.all_glyphs,
    ensures
        index_complete(other, near),
{
    assert forall|t: u32, j: int|
        #![trigger other.rows[t].glyphs[j]]
        other.rows.contains_key(t) && 0 <= j < other.rows[t].glyphs.len() && knows_itself(
            near,
            other.rows[t].glyphs[j].scale_offset.rank_spec(),
        ) implies is_indexed(other, t, j) by {
        assert(cache.rows[t].glyphs[j] == other.rows[t].glyphs[j]);
        let key = font_glyph_key_spec(cache.rows[t].glyphs[j].font_glyph);
        assert(is_indexed(cache, t, j));
        let e = choose|e: TreeEntry| #[trigger] points_at(cache, key, e, t, j);
        assert(points_at(other, key, e, t, j));
    }
}

/// Whether reading a queued glyph from a cache gives nothing but a place in the
/// texture, as long as the answers are those of a relation.
pub open spec fn is_read(
    cache: CacheView,
    queued: (usize, PositionedGlyph),
    comparison: Comparison,
) -> bool {
    forall|result: Result<Option<TextureMatch>, CacheReadErr>| #[trigger]
        reads(cache, queued.0, queued.1, comparison, result) ==> result is Ok && result->Ok_0
            is Some
}

/// Whether reading a glyph from a cache gives this cell, without its padding, to be
/// drawn in the bounding box of the glyph.
pub open spec fn is_read_at(
    cache: CacheView,
    queued: (usize, PositionedGlyph),
    cell: Rect<u32>,
    comparison: Comparison,
) -> bool {
    forall|result: Result<Option<TextureMatch>, CacheReadErr>| #[trigger]
        reads(cache, queued.0, queued.1, comparison, result) ==> result == Ok::<
            _,
            CacheReadErr,
        >(
            Some(
                TextureMatch {
                    tex_rect: if cache.pad_glyphs {
                        cell.unpadded_spec()
                    } else {
                        cell
                    },
                    bounds: DrawnBounds::Own(queued.1.bounding_box->0),
                },
            ),
        )
}

/// A glyph is read wherever in the index there is an entry near it: the search visits
/// the whole index if need be.
pub proof fn law_search_misses_nothing(
    cache: CacheView,
    queued: (usize, PositionedGlyph),
    near: Near,
    e: TreeEntry,
    comparison: Comparison,
)
    requires
        cache.wf(),
        queued.1.bounding_box is Some,
        agrees(comparison, near),
        is_nearness(near),
        stands_for(cache, queued, near, e),
    ensures
        is_read(cache, queued, comparison),
{
    let key = font_glyph_key_spec((queued.0, queued.1.id));
    let tree = cache.tree(key);
    let target = queued.1.spec();
    let rank = target.rank_spec();
    lemma_tree(cache, key);
    lemma_below(tree, rank);
    lemma_below(tree, rank + 1);
    let at = choose|i: int| 0 <= i < tree.len() && tree[i] == e;
    assert(near(e.spec, target, cache.scale_tolerance, cache.position_tolerance));
    assert forall|result: Result<Option<TextureMatch>, CacheReadErr>| #[trigger]
        reads(cache, queued.0, queued.1, comparison, result) implies result is Ok
        && result->Ok_0 is Some by {
        let bb = queued.1.bounding_box->0;
        let (steps, lower, upper) = choose|
            steps: int,
            lower: Option<TreeEntry>,
            upper: Option<TreeEntry>,
        | #[trigger]
            search_ends(cache, tree, target, comparison, steps, lower, upper) && read_result(
                cache,
                lower,
                upper,
                target,
                bb,
                comparison,
                result,
            );
        if lower is None && upper is None {
            if e.rank() <= rank {
                let step = below(tree, rank + 1) - 1 - at;
                assert(downward(tree, target, step) == Some(e));
                assert(is_answer(cache, Some(e), target, comparison, false));
            } else {
                let step = at - below(tree, rank);
                assert(upward(tree, target, step) == Some(e));
                assert(is_answer(cache, Some(e), target, comparison, false));
            }
        }
    }
}

/// A glyph that has its own entry in the index is read from the cell of that entry.
pub proof fn law_own_cell_is_read(
    cache: CacheView,
    queued: (usize, PositionedGlyph),
    near: Near,
    e: TreeEntry,
    comparison: Comparison,
)
    requires
        cache.wf(),
        queued.1.bounding_box is Some,
        agrees(comparison, near),
        cache.tree(font_glyph_key_spec((queued.0, queued.1.id))).contains(e),
        e.rank() == queued.1.spec().rank_spec(),
        knows_itself(near, e.rank()),
    ensures
        is_read_at(cache, queued, cache.info(e).tex_coords, comparison),
{
    let key = font_glyph_key_spec((queued.0, queued.1.id));
    let tree = cache.tree(key);
    let target = queued.1.spec();
    let rank = target.rank_spec();
    lemma_tree(cache, key);
    lemma_below(tree, rank);
    lemma_below(tree, rank + 1);
    lemma_holds_rank(tree, rank);
    let n = below(tree, rank);
    let m = below(tree, rank + 1);
    assert(tree[n] == e);
    assert(m == n + 1) by {
        if m <= n {
            assert(tree[n].rank() >= rank + 1);
        } else if m > n + 1 {
            assert(tree[n].rank() < tree[n + 1].rank());
            assert(tree[n + 1].rank() < rank + 1);
        }
    }
    assert(downward(tree, target, 0) == Some(e));
    assert(upward(tree, target, 0) == Some(e));
    assert(near(e.spec, target, cache.scale_tolerance, cache.position_tolerance));
    assert(!is_answer(cache, Some(e), target, comparison, false));
    assert forall|result: Result<Option<TextureMatch>, CacheReadErr>| #[trigger]
        reads(cache, queued.0, queued.1, comparison, result) implies result == Ok::<
        _,
        CacheReadErr,
    >(
        Some(
            TextureMatch {
                tex_rect: glyph_rect(cache, e),
                bounds: DrawnBounds::Own(queued.1.bounding_box->0),
            },
        ),
    ) by {
        let (steps, lower, upper) = choose|
            steps: int,
            lower: Option<TreeEntry>,
            upper: Option<TreeEntry>,
        | #[trigger]
            search_ends(cache, tree, target, comparison, steps, lower, upper) && read_result(
                cache,
                lower,
                upper,
                target,
                queued.1.bounding_box->0,
                comparison,
                result,
            );
        assert(steps == 0);
    }
}

/// Caching a queue leaves a complete index, whether it succeeds or not.
pub proof fn law_index_stays_complete(
    before: CacheView,
    uploads_before: Seq<Upload>,
    after: CacheView,
    uploads: Seq<Upload>,
    result: Result<(), CacheWriteErr>,
    comparison: Comparison,
    near: Near,
)
    requires
        before.wf(),
        index_complete(before, near),
        agrees(comparison, near),
        is_nearness(near),
        caches_queue(before, uploads_before, after, uploads, result, comparison),
    ensures
        index_complete(after, near),
{
    lemma_caching_near(before, uploads_before, after, uploads, result, comparison, near);
}

/// The index of a new cache is complete, and so is that of a cleared one.
pub proof fn law_new_index_is_complete(cache: CacheView, near: Near)
    ensures
        index_complete(cache.cleared(), near),
{
}

/// Once a queue has been cached, every glyph that was in it is read, whichever of the
/// rows had to make room for the others.
pub proof fn law_queued_glyphs_are_read(
    before: CacheView,
    uploads_before: Seq<Upload>,
    after: CacheView,
    uploads: Seq<Upload>,
    comparison: Comparison,
    near: Near,
    queued: (usize, PositionedGlyph),
    later: Comparison,
)
    requires
        before.wf(),
        index_complete(before, near),
        agrees(comparison, near),
        agrees(later, near),
        is_nearness(near),
        caches_queue(before, uploads_before, after, uploads, Ok(()), comparison),
        before.queue.contains(queued),
        knows_itself(near, queued.1.spec().rank_spec()),
    ensures
        is_read(after, queued, later),
{
    lemma_caching(before, uploads_before, after, uploads, Ok(()), comparison);
    let last = lemma_caching_near(
        before,
        uploads_before,
        after,
        uploads,
        Ok(()),
        comparison,
        near,
    );
    assert(has_stand_in(last, near, queued));
    let e = choose|e: TreeEntry| #[trigger]
        stands_for(last.cache, queued, near, e) && is_kept(
            last,
            near,
            font_glyph_key_spec((queued.0, queued.1.id)),
            e,
        );
    assert(stands_for(after, queued, near, e));
    let i = choose|i: int| 0 <= i < before.queue.len() && before.queue[i] == queued;
    law_search_misses_nothing(after, queued, near, e, later);
}

/// After a pass over a whole queue, every glyph that it uploaded is read from the
/// pixels that it was uploaded to.
pub proof fn law_uploads_of_a_pass_are_read_back(
    cache: CacheView,
    uploads: Seq<Upload>,
    after: Moment,
    comparison: Comparison,
    near: Near,
    i: int,
    later: Comparison,
)
    requires
        cache.wf(),
        index_complete(cache, near),
        agrees(comparison, near),
        agrees(later, near),
        is_nearness(near),
        is_pass(cache, uploads, after, PassEnd::Done, comparison),
        uploads.len() <= i < after.uploads.len(),
        knows_itself(near, after.uploads[i].glyph.spec().rank_spec()),
    ensures
        is_read_at(
            after.cache,
            (after.uploads[i].font_id, after.uploads[i].glyph),
            after.uploads[i].rect,
            later,
        ),
{
    let u = after.uploads[i];
    let queued = (u.font_id, u.glyph);
    lemma_pass(cache, uploads, after, PassEnd::Done, comparison);
    lemma_pass_near(cache, uploads, after, PassEnd::Done, comparison, near);
    assert(has_own_cell(after, near, queued, u.rect));
    let e = choose|e: TreeEntry| #[trigger] names_cell(after, near, queued, u.rect, e);
    assert(is_upload_of(cache, u));
    law_own_cell_is_read(after.cache, queued, near, e, later);
}

/// What holds of the index after caching a queue. The moment is the last of the
/// successful attempt, if there was one.
proof fn lemma_caching_near(
    before: CacheView,
    uploads_before: Seq<Upload>,
    after: CacheView,
    uploads: Seq<Upload>,
    result: Result<(), CacheWriteErr>,
    comparison: Comparison,
    near: Near,
) -> (done: Moment)
    requires
        before.wf(),
        index_complete(before, near),
        agrees(comparison, near),
        is_nearness(near),
        caches_queue(before, uploads_before, after, uploads, result, comparison),
    ensures
        index_complete(after, near),
        result is Ok ==> after == with_queue(done.cache, Seq::empty()),
        result is Ok ==> forall|q: (usize, PositionedGlyph)| #[trigger]
            before.queue.contains(q) && knows_itself(near, q.1.spec().rank_spec())
                ==> has_stand_in(done, near, q),
{
    let a = lemma_last_attempt(before, uploads_before, after, uploads, result, comparison);
    if a.start.rows == before.rows && a.start.all_glyphs == before.all_glyphs {
        law_index_stays_complete_otherwise(before, a.start, near);
    }
    lemma_pass_near(a.start, a.uploads, a.last, a.end, comparison, near);
    law_index_stays_complete_otherwise(a.last.cache, after, near);
    if result is Ok {
        lemma_all_stand_ins(a.start.queue, before.queue, a.last, near);
    }
    a.last
}

/// Where all glyphs of a sorted queue have a stand-in, all of the unsorted one do.
proof fn lemma_all_stand_ins(
    sorted: Seq<(usize, PositionedGlyph)>,
    queue: Seq<(usize, PositionedGlyph)>,
    m: Moment,
    near: Near,
)
    requires
        sorted.to_multiset() == queue.to_multiset(),
        has_stand_ins(m, sorted, sorted.len() as int, near),
    ensures
        forall|q: (usize, PositionedGlyph)| #[trigger]
            queue.contains(q) && knows_itself(near, q.1.spec().rank_spec()) ==> has_stand_in(
                m,
                near,
                q,
            ),
{
    broadcast use vstd::seq_lib::group_to_multiset_ensures;

    assert forall|q: (usize, PositionedGlyph)| #[trigger]
        queue.contains(q) && knows_itself(near, q.1.spec().rank_spec()) implies has_stand_in(
        m,
        near,
        q,
    ) by {
        assert(sorted.to_multiset().count(q) > 0);
        assert(sorted.contains(q));
        let i = choose|i: int| 0 <= i < sorted.len() && sorted[i] == q;
        assert(sorted[i] == q);
    }
}

/// Identical glyphs are always found: looking for a cached version of a glyph that is
/// near itself finds one wherever the index has an entry of its scale and offset.
pub proof fn law_identical_glyphs_are_found(
    cache: CacheView,
    queued: (usize, PositionedGlyph),
    comparison: Comparison,
    near: Near,
    found: Option<u32>,
)
    requires
        cache.wf(),
        agrees(comparison, near),
        knows_itself(near, queued.1.spec().rank_spec()),
        finds_row(cache, queued, comparison, found),
        has_entry(cache, queued),
    ensures
        found is Some,
{
    lemma_identical_is_found(cache, queued, comparison, near, found);
}

/// Whether the index has an entry of the very scale and offset of a glyph.
pub open spec fn has_entry(cache: CacheView, queued: (usize, PositionedGlyph)) -> bool {
    holds_rank(
        cache.tree(font_glyph_key_spec((queued.0, queued.1.id))),
        queued.1.spec().rank_spec(),
    )
}

/// Whether all glyphs of a queue have entries of their own, and are near themselves.
pub open spec fn all_have_entries(
    cache: CacheView,
    queue: Seq<(usize, PositionedGlyph)>,
    near: Near,
) -> bool {
    forall|i: int|
        0 <= i < queue.len() ==> has_entry(cache, #[trigger] queue[i]) && knows_itself(
            near,
            queue[i].1.spec().rank_spec(),
        )
}

/// At every moment of a run over glyphs that are cached, nothing has been drawn and no
/// row has changed.
proof fn lemma_run_cached(
    queue: Seq<(usize, PositionedGlyph)>,
    run: Seq<Moment>,
    comparison: Comparison,
    near: Near,
    k: int,
)
    requires
        is_run(queue, run, comparison),
        run[0].cache.wf(),
        run[0].cache.queue == queue,
        agrees(comparison, near),
        all_have_entries(run[0].cache, queue, near),
        0 <= k < run.len(),
    ensures
        run[k].uploads == run[0].uploads,
        run[k].cache.rows == run[0].cache.rows,
        run[k].cache.all_glyphs == run[0].cache.all_glyphs,
    decreases k,
{
    if k > 0 {
        let before = run[k - 1];
        let queued = queue[k - 1];
        lemma_run(queue, run, comparison, k - 1);
        lemma_run_cached(queue, run, comparison, near, k - 1);
        assert(deals_with(run[k - 1], queue[k - 1], run[k - 1 + 1], comparison));
        assert(has_entry(before.cache, queued));
        if finds_row(before.cache, queued, comparison, None) {
            lemma_identical_is_found(before.cache, queued, comparison, near, None);
        }
    }
}

/// Caching glyphs that are cached already draws nothing, changes no row, and succeeds.
pub proof fn law_cached_glyphs_are_not_drawn_again(
    before: CacheView,
    uploads_before: Seq<Upload>,
    after: CacheView,
    uploads: Seq<Upload>,
    result: Result<(), CacheWriteErr>,
    comparison: Comparison,
    near: Near,
)
    requires
        before.wf(),
        agrees(comparison, near),
        all_have_entries(before, before.queue, near),
        caches_queue(before, uploads_before, after, uploads, result, comparison),
    ensures
        result is Ok,
        uploads == uploads_before,
        after.rows == before.rows,
        after.all_glyphs == before.all_glyphs,
{
    let a = lemma_first_attempt(before, uploads_before, after, uploads, result, comparison);
    let (sorted, last, end) = (a.start, a.last, a.end);
    assert forall|i: int| 0 <= i < sorted.queue.len() implies has_entry(
        sorted,
        #[trigger] sorted.queue[i],
    ) && knows_itself(near, sorted.queue[i].1.spec().rank_spec()) by {
        assert(sorted.queue.contains(sorted.queue[i]));
        assert(before.queue.contains(sorted.queue[i]));
        let j = choose|j: int| 0 <= j < before.queue.len() && before.queue[j] == sorted.queue[i];
        assert(has_entry(before, before.queue[j]));
    }
    let run = choose|run: Seq<Moment>| #[trigger]
        is_run_of_pass(sorted, uploads_before, run, last, end, comparison);
    let k = run.len() - 1;
    lemma_run(sorted.queue, run, comparison, k);
    lemma_run_cached(sorted.queue, run, comparison, near, k);
    if end != PassEnd::Done {
        let queued = sorted.queue[k];
        assert(has_entry(run[k].cache, queued));
        lemma_identical_is_found(run[k].cache, queued, comparison, near, None);
    }
}

/// A glyph without a shape is looked up with success, and has no place. One with a
/// shape has a place wherever the look-up succeeds.
pub proof fn law_only_shapes_have_places(
    cache: CacheView,
    queued: (usize, PositionedGlyph),
    comparison: Comparison,
    result: Result<Option<TextureMatch>, CacheReadErr>,
)
    requires
        reads(cache, queued.0, queued.1, comparison, result),
    ensures
        queued.1.bounding_box is None <==> result == Ok::<Option<TextureMatch>, CacheReadErr>(None),
{
}

/// No glyph with a shape is found in a new or cleared cache.
pub proof fn law_cleared_cache_has_no_glyphs(
    cache: CacheView,
    queued: (usize, PositionedGlyph),
    comparison: Comparison,
    result: Result<Option<TextureMatch>, CacheReadErr>,
)
    requires
        queued.1.bounding_box is Some,
        reads(cache.cleared(), queued.0, queued.1, comparison, result),
    ensures
        result == Err::<Option<TextureMatch>, CacheReadErr>(CacheReadErr::GlyphNotCached),
{
    let tree = cache.cleared().tree(font_glyph_key_spec((queued.0, queued.1.id)));
    lemma_below(tree, queued.1.spec().rank_spec());
    lemma_below(tree, queued.1.spec().rank_spec() + 1);
}

/// What is read for a glyph lies in the texture.
pub proof fn law_what_is_read_lies_in_texture(
    cache: CacheView,
    queued: (usize, PositionedGlyph),
    comparison: Comparison,
    found: TextureMatch,
)
    requires
        cache.wf(),
        reads(cache, queued.0, queued.1, comparison, Ok(Some(found))),
    ensures
        found.tex_rect.min.x <= found.tex_rect.max.x <= cache.width,
        found.tex_rect.min.y <= found.tex_rect.max.y <= cache.height,
{
    let key = font_glyph_key_spec((queued.0, queued.1.id));
    let tree = cache.tree(key);
    let target = queued.1.spec();
    let bb = queued.1.bounding_box->0;
    let result: Result<Option<TextureMatch>, CacheReadErr> = Ok(Some(found));
    lemma_tree(cache, key);
    lemma_below(tree, target.rank_spec());
    lemma_below(tree, target.rank_spec() + 1);
    let (steps, lower, upper) = choose|
        steps: int,
        lower: Option<TreeEntry>,
        upper: Option<TreeEntry>,
    | #[trigger]
        search_ends(cache, tree, target, comparison, steps, lower, upper) && read_result(
            cache,
            lower,
            upper,
            target,
            bb,
            comparison,
            result,
        );
    let e = if lower is Some && found.tex_rect == glyph_rect(cache, lower->0) {
        lower->0
    } else {
        upper->0
    };
    assert(tree.contains(e));
    assert(cache.is_located(key, e));
    assert(cache.row_wf(e.row));
    assert(cache.cell_wf(e.row, cache.rows[e.row].glyphs[e.index as int].tex_coords));
}

} // verus!
