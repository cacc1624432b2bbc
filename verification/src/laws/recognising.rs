//! Which cached version of a glyph is used again for a queued one.

use crate::arithmetic::Comparison;
use crate::caching::{
    are_answers, caches_queue, deals_with, finds_row, is_pass, is_run, is_run_of_pass,
    lower_neighbour, matching_row, upper_neighbour, Answers, Moment, PassEnd,
};
use crate::collections::moved_to_back;
use crate::error::CacheWriteErr;
use crate::glyph::PositionedGlyph;
use crate::glyph_tree::{ascending, below, lemma_below, TreeEntry};
use crate::laws::repeating::is_definite;
use crate::model::CacheView;
use crate::nearness::{agrees, Near};
use crate::passes::{lemma_first_attempt, lemma_found_row, lemma_run, lemma_tree};
use crate::row::font_glyph_key_spec;
use crate::scale_offset::GlyphScaleOffset;
use crate::single::Single;
use crate::upload::Upload;
use vstd::prelude::*;

verus! {

/// The cached versions of a queued glyph.
pub open spec fn versions_of(cache: CacheView, queued: (usize, PositionedGlyph)) -> Seq<TreeEntry> {
    cache.tree(font_glyph_key_spec((queued.0, queued.1.id)))
}

/// Whether this is the last of the entries that rank no higher than a version.
pub open spec fn is_next_below(
    tree: Seq<TreeEntry>,
    spec: GlyphScaleOffset,
    e: TreeEntry,
) -> bool {
    &&& tree.contains(e)
    &&& e.rank() <= spec.rank_spec()
    &&& forall|o: TreeEntry| #[trigger]
        tree.contains(o) && o.rank() <= spec.rank_spec() ==> o.rank() <= e.rank()
}

/// Whether this is the first of the entries that rank no lower than a version.
pub open spec fn is_next_above(
    tree: Seq<TreeEntry>,
    spec: GlyphScaleOffset,
    e: TreeEntry,
) -> bool {
    &&& tree.contains(e)
    &&& e.rank() >= spec.rank_spec()
    &&& forall|o: TreeEntry| #[trigger]
        tree.contains(o) && o.rank() >= spec.rank_spec() ==> o.rank() >= e.rank()
}

/// Whether this is the nearest cached version of a queued glyph on either side of it, and
/// near enough at the tolerances.
pub open spec fn is_near_neighbour(
    cache: CacheView,
    queued: (usize, PositionedGlyph),
    near: Near,
    e: TreeEntry,
) -> bool {
    let tree = versions_of(cache, queued);
    let spec = queued.1.spec();
    &&& is_next_below(tree, spec, e) || is_next_above(tree, spec, e)
    &&& near(spec, e.spec, cache.scale_tolerance, cache.position_tolerance)
}

/// The neighbours that are asked about are those next to the version in the order.
proof fn lemma_neighbours(tree: Seq<TreeEntry>, spec: GlyphScaleOffset)
    requires
        ascending(tree),
    ensures
        forall|e: TreeEntry| #[trigger]
            is_next_below(tree, spec, e) <==> lower_neighbour(tree, spec) == Some(e),
        forall|e: TreeEntry| #[trigger]
            is_next_above(tree, spec, e) <==> upper_neighbour(tree, spec) == Some(e),
{
    let rank = spec.rank_spec();
    let (m, n) = (below(tree, rank), below(tree, rank + 1));
    lemma_below(tree, rank);
    lemma_below(tree, rank + 1);
    assert forall|e: TreeEntry| #[trigger] is_next_below(tree, spec, e) <==> lower_neighbour(
        tree,
        spec,
    ) == Some(e) by {
        if is_next_below(tree, spec, e) {
            let i = choose|i: int| 0 <= i < tree.len() && tree[i] == e;
            assert(i < n);
            assert(tree.contains(tree[n - 1]));
            assert(tree[n - 1].rank() <= e.rank());
        }
        if n > 0 {
            assert(tree.contains(tree[n - 1]));
            assert forall|o: TreeEntry| #[trigger]
                tree.contains(o) && o.rank() <= rank implies o.rank() <= tree[n - 1].rank() by {
                let i = choose|i: int| 0 <= i < tree.len() && tree[i] == o;
                assert(i < n);
            }
        }
    }
    assert forall|e: TreeEntry| #[trigger] is_next_above(tree, spec, e) <==> upper_neighbour(
        tree,
        spec,
    ) == Some(e) by {
        if is_next_above(tree, spec, e) {
            let i = choose|i: int| 0 <= i < tree.len() && tree[i] == e;
            assert(i >= m);
            assert(tree.contains(tree[m]));
            assert(tree[m].rank() >= e.rank());
        }
        if m < tree.len() {
            assert(tree.contains(tree[m]));
            assert forall|o: TreeEntry| #[trigger]
                tree.contains(o) && o.rank() >= rank implies o.rank() >= tree[m].rank() by {
                let i = choose|i: int| 0 <= i < tree.len() && tree[i] == o;
                assert(i >= m);
            }
        }
    }
}

/// A queued glyph is recognised if the nearest cached version on either side of it is
/// near enough. The row that is found holds such a version.
pub proof fn law_near_neighbours_are_recognised(
    cache: CacheView,
    queued: (usize, PositionedGlyph),
    comparison: Comparison,
    near: Near,
    found: Option<u32>,
    e: TreeEntry,
)
    requires
        cache.wf(),
        agrees(comparison, near),
        finds_row(cache, queued, comparison, found),
        is_near_neighbour(cache, queued, near, e),
    ensures
        found is Some,
        exists|o: TreeEntry| #[trigger]
            is_near_neighbour(cache, queued, near, o) && o.row == found->0,
{
    let tree = versions_of(cache, queued);
    let spec = queued.1.spec();
    lemma_tree(cache, font_glyph_key_spec((queued.0, queued.1.id)));
    lemma_neighbours(tree, spec);
    let answers = choose|answers: Answers| #[trigger]
        are_answers(cache, tree, spec, comparison, answers) && found == matching_row(
            tree,
            spec,
            answers,
        );
    let lower = lower_neighbour(tree, spec);
    let upper = upper_neighbour(tree, spec);
    if lower is Some {
        assert(is_next_below(tree, spec, lower->0));
        if answers.lower {
            assert(is_near_neighbour(cache, queued, near, lower->0));
        }
    }
    if upper is Some {
        assert(is_next_above(tree, spec, upper->0));
        if answers.upper {
            assert(is_near_neighbour(cache, queued, near, upper->0));
        }
    }
}

/// Only rows that hold a near enough neighbour of a queued glyph are found for it.
pub proof fn law_only_near_neighbours_are_recognised(
    cache: CacheView,
    queued: (usize, PositionedGlyph),
    comparison: Comparison,
    near: Near,
    top: u32,
)
    requires
        cache.wf(),
        agrees(comparison, near),
        finds_row(cache, queued, comparison, Some(top)),
    ensures
        cache.rows.contains_key(top),
        exists|o: TreeEntry| #[trigger]
            is_near_neighbour(cache, queued, near, o) && o.row == top,
{
    let tree = versions_of(cache, queued);
    let spec = queued.1.spec();
    lemma_tree(cache, font_glyph_key_spec((queued.0, queued.1.id)));
    lemma_neighbours(tree, spec);
    let found = lemma_found_row(cache, queued, comparison, top);
    let answers = choose|answers: Answers| #[trigger]
        are_answers(cache, tree, spec, comparison, answers) && Some(top) == matching_row(
            tree,
            spec,
            answers,
        );
    let lower = lower_neighbour(tree, spec);
    let upper = upper_neighbour(tree, spec);
    if lower is Some {
        assert(is_next_below(tree, spec, lower->0));
        if answers.lower {
            assert(is_near_neighbour(cache, queued, near, lower->0));
        }
    }
    if upper is Some {
        assert(is_next_above(tree, spec, upper->0));
        if answers.upper {
            assert(is_near_neighbour(cache, queued, near, upper->0));
        }
    }
}

/// Where both neighbours of a queued glyph are near enough and stand in different rows,
/// the row of the nearer one is found, and of two that are equally near the upper one's.
pub proof fn law_nearer_neighbour_is_recognised(
    cache: CacheView,
    queued: (usize, PositionedGlyph),
    comparison: Comparison,
    near: Near,
    found: Option<u32>,
    lower: TreeEntry,
    upper: TreeEntry,
    lower_distance: Single,
    upper_distance: Single,
)
    requires
        cache.wf(),
        agrees(comparison, near),
        is_definite(comparison),
        finds_row(cache, queued, comparison, found),
        is_next_below(versions_of(cache, queued), queued.1.spec(), lower),
        is_next_above(versions_of(cache, queued), queued.1.spec(), upper),
        is_near_neighbour(cache, queued, near, lower),
        is_near_neighbour(cache, queued, near, upper),
        lower.row != upper.row,
        comparison.can_measure(
            lower.spec,
            queued.1.spec(),
            cache.scale_tolerance,
            cache.position_tolerance,
            lower_distance,
        ),
        comparison.can_measure(
            upper.spec,
            queued.1.spec(),
            cache.scale_tolerance,
            cache.position_tolerance,
            upper_distance,
        ),
    ensures
        lower_distance.less_than_spec(upper_distance) ==> found == Some(lower.row),
        !lower_distance.less_than_spec(upper_distance) ==> found == Some(upper.row),
{
    let tree = versions_of(cache, queued);
    let spec = queued.1.spec();
    lemma_tree(cache, font_glyph_key_spec((queued.0, queued.1.id)));
    lemma_neighbours(tree, spec);
    let answers = choose|answers: Answers| #[trigger]
        are_answers(cache, tree, spec, comparison, answers) && found == matching_row(
            tree,
            spec,
            answers,
        );
    assert(lower_neighbour(tree, spec) == Some(lower));
    assert(upper_neighbour(tree, spec) == Some(upper));
    assert(answers.lower && answers.upper);
    assert(answers.lower_distance == lower_distance);
    assert(answers.upper_distance == upper_distance);
}

/// A glyph that is recognised is not drawn: the row of a near enough neighbour becomes the
/// most recently used and is in use, and nothing else changes.
pub proof fn law_recognised_glyphs_are_not_drawn(
    before: Moment,
    queued: (usize, PositionedGlyph),
    after: Moment,
    comparison: Comparison,
    near: Near,
    e: TreeEntry,
)
    requires
        before.cache.wf(),
        agrees(comparison, near),
        deals_with(before, queued, after, comparison),
        is_near_neighbour(before.cache, queued, near, e),
    ensures
        after.uploads == before.uploads,
        exists|o: TreeEntry|
            {
                &&& #[trigger] is_near_neighbour(before.cache, queued, near, o)
                &&& after.in_use == before.in_use.insert(o.row)
                &&& after.cache.order == moved_to_back(before.cache.order, o.row)
            },
        after.cache == (CacheView { order: after.cache.order, ..before.cache }),
{
    if finds_row(before.cache, queued, comparison, None) {
        law_near_neighbours_are_recognised(before.cache, queued, comparison, near, None, e);
    }
    let top = choose|top: u32| #[trigger]
        finds_row(before.cache, queued, comparison, Some(top)) && after == before.found(top);
    law_only_near_neighbours_are_recognised(before.cache, queued, comparison, near, top);
}

/// A glyph with no near enough neighbour is drawn, if it is dealt with at all.
pub proof fn law_other_glyphs_are_drawn(
    before: Moment,
    queued: (usize, PositionedGlyph),
    after: Moment,
    comparison: Comparison,
    near: Near,
)
    requires
        before.cache.wf(),
        agrees(comparison, near),
        deals_with(before, queued, after, comparison),
        forall|e: TreeEntry| !#[trigger] is_near_neighbour(before.cache, queued, near, e),
    ensures
        after.uploads.len() == before.uploads.len() + 1,
        after.uploads.last().font_id == queued.0,
        after.uploads.last().glyph == queued.1,
{
    if exists|top: u32| #[trigger]
        finds_row(before.cache, queued, comparison, Some(top)) && after == before.found(top) {
        let top = choose|top: u32| #[trigger]
            finds_row(before.cache, queued, comparison, Some(top)) && after == before.found(top);
        law_only_near_neighbours_are_recognised(before.cache, queued, comparison, near, top);
    }
}

/// Whether a queued glyph has a near enough neighbour.
pub open spec fn has_near_neighbour(
    cache: CacheView,
    queued: (usize, PositionedGlyph),
    near: Near,
) -> bool {
    exists|e: TreeEntry| #[trigger] is_near_neighbour(cache, queued, near, e)
}

/// Whether every glyph of a queue has a near enough neighbour.
pub open spec fn all_have_near_neighbours(
    cache: CacheView,
    queue: Seq<(usize, PositionedGlyph)>,
    near: Near,
) -> bool {
    forall|i: int|
        0 <= i < queue.len() ==> has_near_neighbour(cache, #[trigger] queue[i], near)
}

/// At every moment of a run over glyphs with near enough neighbours, nothing has been
/// drawn and nothing has changed but the order of the rows.
proof fn lemma_run_recognised(
    queue: Seq<(usize, PositionedGlyph)>,
    run: Seq<Moment>,
    comparison: Comparison,
    near: Near,
    k: int,
)
    requires
        is_run(queue, run, comparison),
        run[0].cache.wf(),
        run[0].cache.queue == queue,
        agrees(comparison, near),
        all_have_near_neighbours(run[0].cache, queue, near),
        0 <= k < run.len(),
    ensures
        run[k].uploads == run[0].uploads,
        run[k].cache == (CacheView { order: run[k].cache.order, ..run[0].cache }),
    decreases k,
{
    if k > 0 {
        lemma_run(queue, run, comparison, k - 1);
        lemma_run_recognised(queue, run, comparison, near, k - 1);
        assert(deals_with(run[k - 1], queue[k - 1], run[k - 1 + 1], comparison));
        let queued = queue[k - 1];
        assert(has_near_neighbour(run[0].cache, queued, near));
        let e = choose|e: TreeEntry| is_near_neighbour(run[0].cache, queued, near, e);
        assert(is_near_neighbour(run[k - 1].cache, queued, near, e));
        law_recognised_glyphs_are_not_drawn(
            run[k - 1],
            queue[k - 1],
            run[k],
            comparison,
            near,
            e,
        );
    }
}

/// Sorting a queue changes nothing about the neighbours of its glyphs.
proof fn lemma_sorted_recognised(cache: CacheView, sorted: CacheView, near: Near)
    requires
        sorted == (CacheView { queue: sorted.queue, ..cache }),
        forall|q: (usize, PositionedGlyph)| #[trigger]
            sorted.queue.contains(q) <==> cache.queue.contains(q),
        all_have_near_neighbours(cache, cache.queue, near),
    ensures
        all_have_near_neighbours(sorted, sorted.queue, near),
{
    assert forall|i: int| 0 <= i < sorted.queue.len() implies has_near_neighbour(
        sorted,
        #[trigger] sorted.queue[i],
        near,
    ) by {
        let queued = sorted.queue[i];
        assert(sorted.queue.contains(queued));
        assert(cache.queue.contains(queued));
        let j = choose|j: int| 0 <= j < cache.queue.len() && cache.queue[j] == queued;
        assert(has_near_neighbour(cache, cache.queue[j], near));
        let e = choose|e: TreeEntry| is_near_neighbour(cache, queued, near, e);
        assert(is_near_neighbour(sorted, queued, near, e));
    }
}

/// A pass over glyphs with near enough neighbours gets to its end and draws nothing.
proof fn lemma_pass_recognised(
    cache: CacheView,
    uploads: Seq<Upload>,
    after: Moment,
    end: PassEnd,
    comparison: Comparison,
    near: Near,
)
    requires
        cache.wf(),
        agrees(comparison, near),
        all_have_near_neighbours(cache, cache.queue, near),
        is_pass(cache, uploads, after, end, comparison),
    ensures
        end == PassEnd::Done,
        after.uploads == uploads,
        after.cache == (CacheView { order: after.cache.order, ..cache }),
{
    let run = choose|run: Seq<Moment>| #[trigger]
        is_run_of_pass(cache, uploads, run, after, end, comparison);
    let k = run.len() - 1;
    lemma_run(cache.queue, run, comparison, k);
    lemma_run_recognised(cache.queue, run, comparison, near, k);
    if end != PassEnd::Done {
        let queued = cache.queue[k];
        assert(has_near_neighbour(cache, queued, near));
        let e = choose|e: TreeEntry| is_near_neighbour(cache, queued, near, e);
        assert(is_near_neighbour(run[k].cache, queued, near, e));
        law_near_neighbours_are_recognised(run[k].cache, queued, comparison, near, None, e);
    }
}

/// Caching glyphs whose nearest cached versions on one side or the other are near enough
/// draws nothing, changes no row, no gap and no entry, and succeeds.
pub proof fn law_near_glyphs_are_not_drawn_again(
    before: CacheView,
    uploads_before: Seq<Upload>,
    after: CacheView,
    uploads: Seq<Upload>,
    result: Result<(), CacheWriteErr>,
    comparison: Comparison,
    near: Near,
)
    requires
        before.wf(),
        agrees(comparison, near),
        all_have_near_neighbours(before, before.queue, near),
        caches_queue(before, uploads_before, after, uploads, result, comparison),
    ensures
        result == Ok::<(), CacheWriteErr>(()),
        uploads == uploads_before,
        after.rows == before.rows,
        after.all_glyphs == before.all_glyphs,
        after.space_end_for_start == before.space_end_for_start,
        after.space_start_for_end == before.space_start_for_end,
{
    let a = lemma_first_attempt(before, uploads_before, after, uploads, result, comparison);
    lemma_sorted_recognised(before, a.start, near);
    lemma_pass_recognised(a.start, uploads_before, a.last, a.end, comparison, near);
}

} // verus!
