//! What holds in the middle and at the end of a pass over the queue.

use crate::arithmetic::Comparison;
use crate::caching::{
    are_answers, caches_after_clearing, caches_queue, deals_with, ends_caching, finds_row, is_pass,
    is_run, is_run_of_pass, lower_neighbour, matching_row, newest_fit, readies_row, sorts_queue,
    too_large, upper_neighbour, with_queue, Answers, Moment, PassEnd,
};
use crate::error::CacheWriteErr;
use crate::glyph::PositionedGlyph;
use crate::glyph_tree::{ascending, lemma_below, TreeEntry};
use crate::invariants::lemma_moved_to_back;
use crate::model::CacheView;
use crate::row::{font_glyph_key_spec, GlyphTexInfo, RowView};
use crate::upload::Upload;
use vstd::prelude::*;

verus! {

// One glyph.

/// The index of a well-formed cache is in order.
pub proof fn lemma_tree(cache: CacheView, key: u128)
    requires
        cache.wf(),
    ensures
        ascending(cache.tree(key)),
        forall|e: TreeEntry| #[trigger]
            cache.tree(key).contains(e) ==> cache.is_located(key, e),
{
}

/// The newest row with room is one of the rows, and has room.
proof fn lemma_newest_fit(cache: CacheView, order: Seq<u32>, width: int, height: int)
    ensures
        newest_fit(cache, order, width, height) is Some ==> order.contains(
            newest_fit(cache, order, width, height)->0,
        ) && cache.row_fits(newest_fit(cache, order, width, height)->0, width, height),
    decreases order.len(),
{
    if order.len() > 0 {
        if cache.row_fits(order.last(), width, height) {
            assert(order[order.len() - 1] == order.last());
        } else {
            let front = order.drop_last();
            lemma_newest_fit(cache, front, width, height);
            if newest_fit(cache, front, width, height) is Some {
                let top = newest_fit(cache, front, width, height)->0;
                let i = choose|i: int| 0 <= i < front.len() && front[i] == top;
                assert(order[i] == top);
            }
        }
    }
}

/// Whether a row is at least this high and has at least this many columns left.
pub open spec fn has_room(cache: CacheView, top: u32, width: int, height: int) -> bool {
    &&& cache.rows.contains_key(top)
    &&& cache.rows[top].height >= height
    &&& cache.width - cache.rows[top].width >= width
}

/// The row that is looked for is the last of the list that has room, and there is none
/// only if no row of the list has room.
pub proof fn lemma_newest_row_with_room(
    cache: CacheView,
    order: Seq<u32>,
    width: int,
    height: int,
)
    ensures
        match newest_fit(cache, order, width, height) {
            Some(top) => exists|i: int|
                {
                    &&& 0 <= i < order.len()
                    &&& #[trigger] order[i] == top
                    &&& cache.rows.contains_key(top) ==> has_room(cache, top, width, height)
                    &&& forall|j: int|
                        i < j < order.len() ==> !has_room(cache, #[trigger] order[j], width, height)
                },
            None => forall|j: int|
                0 <= j < order.len() ==> !has_room(cache, #[trigger] order[j], width, height),
        },
    decreases order.len(),
{
    if order.len() > 0 {
        let last = order.len() - 1;
        if cache.row_fits(order.last(), width, height) {
            assert(order[last] == order.last());
        } else {
            let front = order.drop_last();
            lemma_newest_row_with_room(cache, front, width, height);
            assert forall|j: int| 0 <= j < last implies front[j] == order[j] by {}
            match newest_fit(cache, front, width, height) {
                Some(top) => {
                    let i = choose|i: int|
                        {
                            &&& 0 <= i < front.len()
                            &&& #[trigger] front[i] == top
                            &&& forall|j: int|
                                i < j < front.len() ==> !has_room(
                                    cache,
                                    #[trigger] front[j],
                                    width,
                                    height,
                                )
                        };
                    assert(order[i] == top);
                    assert forall|j: int| i < j < order.len() implies !has_room(
                        cache,
                        #[trigger] order[j],
                        width,
                        height,
                    ) by {
                        if j < last {
                            assert(front[j] == order[j]);
                        }
                    }
                },
                None => {
                    assert forall|j: int| 0 <= j < order.len() implies !has_room(
                        cache,
                        #[trigger] order[j],
                        width,
                        height,
                    ) by {
                        if j < last {
                            assert(front[j] == order[j]);
                        }
                    }
                },
            }
        }
    }
}

/// A row that is found for a glyph has room for it.
pub proof fn lemma_readies_row(
    cache: CacheView,
    in_use: Set<u32>,
    width: int,
    height: int,
    ready: CacheView,
    top: u32,
)
    requires
        cache.wf(),
        0 <= height <= cache.height,
        0 <= width <= cache.width,
        readies_row(cache, in_use, width, height, ready, top),
    ensures
        ready.wf(),
        ready.same_settings(cache),
        ready.rows.contains_key(top),
        ready.row_fits(top, width, height),
{
    lemma_newest_fit(cache, cache.order, width, height);
    if newest_fit(cache, cache.order, width, height) is None {
        if cache.has_gap(height) {
            cache.lemma_opened(top, height as u32);
        } else {
            cache.lemma_made_room(in_use, height);
            cache.made_room(in_use, height).0.lemma_opened(top, height as u32);
        }
    }
}

/// A row in which a glyph is found is one of the rows.
pub proof fn lemma_found_row(
    cache: CacheView,
    queued: (usize, PositionedGlyph),
    comparison: Comparison,
    top: u32,
) -> (e: TreeEntry)
    requires
        cache.wf(),
        finds_row(cache, queued, comparison, Some(top)),
    ensures
        cache.rows.contains_key(top),
        cache.tree(font_glyph_key_spec((queued.0, queued.1.id))).contains(e),
        e.row == top,
        comparison.can_match(
            queued.1.spec(),
            e.spec,
            cache.scale_tolerance,
            cache.position_tolerance,
            true,
        ),
{
    let key = font_glyph_key_spec((queued.0, queued.1.id));
    let tree = cache.tree(key);
    let spec = queued.1.spec();
    lemma_tree(cache, key);
    lemma_below(tree, spec.rank_spec());
    lemma_below(tree, spec.rank_spec() + 1);
    let answers = choose|answers: Answers| #[trigger]
        are_answers(cache, tree, spec, comparison, answers) && Some(top) == matching_row(
            tree,
            spec,
            answers,
        );
    let lower = lower_neighbour(tree, spec);
    let upper = upper_neighbour(tree, spec);
    let e = if lower is Some && answers.lower && lower->0.row == top {
        lower->0
    } else {
        upper->0
    };
    assert(tree.contains(e));
    assert(cache.is_located(key, e));
    e
}

/// Whether the pixels of an upload lie in the texture, and are as many as its glyph
/// takes, with padding where glyphs are padded.
pub open spec fn fills_cell(cache: CacheView, u: Upload) -> bool {
    &&& u.rect.min.x <= u.rect.max.x <= cache.width
    &&& u.rect.min.y <= u.rect.max.y <= cache.height
    &&& (u.cols(), u.rows()) == cache.padded_size(u.glyph)
}

/// Whether an upload is one of a queued glyph, and fits the texture.
pub open spec fn is_upload_of(cache: CacheView, u: Upload) -> bool {
    &&& cache.queue.contains((u.font_id, u.glyph))
    &&& fills_cell(cache, u)
}

/// Dealing with a glyph keeps a cache well-formed.
pub proof fn lemma_deals_with(
    before: Moment,
    queued: (usize, PositionedGlyph),
    after: Moment,
    comparison: Comparison,
)
    requires
        before.cache.wf(),
        queued.1.bounding_box is Some,
        queued.1.is_drawable(),
        deals_with(before, queued, after, comparison),
    ensures
        after.cache.wf(),
        after.cache.same_settings(before.cache),
        before.in_use.subset_of(after.in_use),
        after.cache.order.len() > 0,
        after.in_use == before.in_use.insert(after.cache.order.last()),
        after.uploads == before.uploads || {
            &&& after.uploads.len() == before.uploads.len() + 1
            &&& after.uploads.drop_last() == before.uploads
            &&& after.uploads.last().font_id == queued.0
            &&& after.uploads.last().glyph == queued.1
            &&& fills_cell(before.cache, after.uploads.last())
        },
{
    let cache = before.cache;
    let (width, height) = cache.padded_size(queued.1);
    if exists|top: u32| #[trigger]
        finds_row(cache, queued, comparison, Some(top)) && after == before.found(top) {
        let top = choose|top: u32| #[trigger]
            finds_row(cache, queued, comparison, Some(top)) && after == before.found(top);
        let e = lemma_found_row(cache, queued, comparison, top);
        cache.lemma_touched(top);
        assert(after.cache.order.last() == top);
    } else {
        let (ready, top) = choose|ready: CacheView, top: u32|
            {
                &&& #[trigger] readies_row(cache, before.in_use, width, height, ready, top)
                &&& ready.rows[top].glyphs.len() < usize::MAX
                &&& after == before.added(ready, top, queued)
            };
        lemma_readies_row(cache, before.in_use, width, height, ready, top);
        ready.lemma_placed(
            top,
            width as u32,
            height as u32,
            (queued.0, queued.1.id),
            queued.1,
        );
        assert(after.cache.order.last() == top);
        assert(after.uploads.drop_last() =~= before.uploads);
        assert(ready.row_wf(top));
    }
}

/// Making room leaves the rows in use, and whatever rows are left are as they were.
pub proof fn lemma_made_room_rows(cache: CacheView, in_use: Set<u32>, height: int)
    ensures
        ({
            let after = cache.made_room(in_use, height).0;
            &&& forall|t: u32| #[trigger]
                after.rows.contains_key(t) ==> cache.rows.contains_key(t) && after.rows[t]
                    == cache.rows[t]
            &&& forall|t: u32| #[trigger]
                cache.rows.contains_key(t) && in_use.contains(t) ==> after.rows.contains_key(t)
        }),
    decreases cache.order.len(),
{
    if cache.order.len() > 0 && !in_use.contains(cache.order[0]) {
        let next = cache.evicted();
        let after = cache.made_room(in_use, height).0;
        if next.is_gap(cache.evicted_gap(), height) {
            assert(after == next);
        } else {
            lemma_made_room_rows(next, in_use, height);
            assert(after == next.made_room(in_use, height).0);
        }
        assert forall|t: u32| #[trigger] after.rows.contains_key(t) implies cache.rows.contains_key(
            t,
        ) && after.rows[t] == cache.rows[t] by {
            assert(next.rows.contains_key(t));
        }
        assert forall|t: u32| #[trigger]
            cache.rows.contains_key(t) && in_use.contains(t) implies after.rows.contains_key(t) by {
            assert(next.rows.contains_key(t));
        }
    }
}

/// Finding a row for a glyph leaves the rows in use, and whatever glyphs are left are
/// where they were.
pub proof fn lemma_readies_row_rows(
    cache: CacheView,
    in_use: Set<u32>,
    width: int,
    height: int,
    ready: CacheView,
    top: u32,
)
    requires
        cache.wf(),
        0 <= height <= cache.height,
        0 <= width <= cache.width,
        readies_row(cache, in_use, width, height, ready, top),
    ensures
        forall|t: u32| #[trigger]
            ready.rows.contains_key(t) && ready.rows[t].glyphs.len() > 0
                ==> cache.rows.contains_key(t) && ready.rows[t].glyphs == cache.rows[t].glyphs,
        forall|t: u32| #[trigger]
            cache.rows.contains_key(t) && in_use.contains(t) ==> {
                &&& ready.rows.contains_key(t)
                &&& ready.rows[t].glyphs == cache.rows[t].glyphs
                &&& cache.rows[t].height > 0 ==> ready.rows[t].height == cache.rows[t].height
            },
{
    if newest_fit(cache, cache.order, width, height) is None {
        if cache.has_gap(height) {
            cache.lemma_opened(top, height as u32);
        } else {
            let emptied = cache.made_room(in_use, height).0;
            cache.lemma_made_room(in_use, height);
            lemma_made_room_rows(cache, in_use, height);
            emptied.lemma_opened(top, height as u32);
            assert forall|t: u32| #[trigger]
                ready.rows.contains_key(t) && ready.rows[t].glyphs.len()
                    > 0 implies cache.rows.contains_key(t) && ready.rows[t].glyphs
                == cache.rows[t].glyphs by {
                assert(emptied.rows.contains_key(t));
            }
            assert forall|t: u32| #[trigger]
                cache.rows.contains_key(t) && in_use.contains(t) implies {
                &&& ready.rows.contains_key(t)
                &&& ready.rows[t].glyphs == cache.rows[t].glyphs
                &&& cache.rows[t].height > 0 ==> ready.rows[t].height == cache.rows[t].height
            } by {
                assert(emptied.rows.contains_key(t));
            }
        }
    }
}

/// Whether an upload draws the glyph of a cell into it.
pub open spec fn draws(u: Upload, info: GlyphTexInfo) -> bool {
    &&& u.rect == info.tex_coords
    &&& (u.font_id, u.glyph.id) == info.font_glyph
    &&& u.glyph.spec() == info.scale_offset
}

/// Whether a cell is one that was there before.
pub open spec fn is_old_cell(before: CacheView, after: CacheView, top: u32, j: int) -> bool {
    &&& before.rows.contains_key(top)
    &&& 0 <= j < before.rows[top].glyphs.len()
    &&& before.rows[top].glyphs[j] == after.rows[top].glyphs[j]
}

/// Whether a cell is the last of the most recently used row, and the last upload draws
/// its glyph.
pub open spec fn is_new_cell(after: Moment, top: u32, j: int) -> bool {
    &&& after.cache.order.len() > 0
    &&& top == after.cache.order.last()
    &&& after.cache.rows.contains_key(top)
    &&& j == after.cache.rows[top].glyphs.len() - 1
    &&& 0 <= j
    &&& after.uploads.len() > 0
    &&& draws(after.uploads.last(), after.cache.rows[top].glyphs[j])
}

/// Whether a row is still there, and so are its glyphs. Its height may have changed only
/// if it had no lines.
pub open spec fn keeps_row(before: CacheView, after: CacheView, top: u32) -> bool {
    &&& after.rows.contains_key(top)
    &&& before.rows[top].height > 0 ==> after.rows[top].height == before.rows[top].height
    &&& before.rows[top].glyphs.is_prefix_of(after.rows[top].glyphs)
}

/// Whether all rows in use are rows of the cache.
pub open spec fn uses_rows(m: Moment) -> bool {
    forall|t: u32| #[trigger] m.in_use.contains(t) ==> m.cache.rows.contains_key(t)
}

/// Dealing with a glyph leaves the rows in use, and adds at most one cell.
pub proof fn lemma_deals_with_rows(
    before: Moment,
    queued: (usize, PositionedGlyph),
    after: Moment,
    comparison: Comparison,
)
    requires
        before.cache.wf(),
        uses_rows(before),
        queued.1.bounding_box is Some,
        queued.1.is_drawable(),
        deals_with(before, queued, after, comparison),
    ensures
        uses_rows(after),
        forall|t: u32| #[trigger]
            before.in_use.contains(t) ==> keeps_row(before.cache, after.cache, t),
        forall|t: u32, j: int|
            #![trigger after.cache.rows[t].glyphs[j]]
            after.cache.rows.contains_key(t) && 0 <= j < after.cache.rows[t].glyphs.len()
                ==> is_old_cell(before.cache, after.cache, t, j) || (after.uploads.len()
                > before.uploads.len() && is_new_cell(after, t, j)),
        after.uploads.len() > before.uploads.len() ==> is_new_cell(
            after,
            after.cache.order.last(),
            after.cache.rows[after.cache.order.last()].glyphs.len() - 1,
        ),
        after.uploads.len() > before.uploads.len() && before.in_use.contains(
            after.cache.order.last(),
        ) ==> before.cache.rows[after.cache.order.last()].glyphs.len()
            == after.cache.rows[after.cache.order.last()].glyphs.len() - 1,
{
    let cache = before.cache;
    let (width, height) = cache.padded_size(queued.1);
    lemma_deals_with(before, queued, after, comparison);
    if exists|top: u32| #[trigger]
        finds_row(cache, queued, comparison, Some(top)) && after == before.found(top) {
        let top = choose|top: u32| #[trigger]
            finds_row(cache, queued, comparison, Some(top)) && after == before.found(top);
        let e = lemma_found_row(cache, queued, comparison, top);
        assert forall|t: u32| #[trigger] before.in_use.contains(t) implies keeps_row(
            cache,
            after.cache,
            t,
        ) by {
            let glyphs = cache.rows[t].glyphs;
            assert(glyphs =~= glyphs.subrange(0, glyphs.len() as int));
        }
    } else {
        let (ready, top) = choose|ready: CacheView, top: u32|
            {
                &&& #[trigger] readies_row(cache, before.in_use, width, height, ready, top)
                &&& ready.rows[top].glyphs.len() < usize::MAX
                &&& after == before.added(ready, top, queued)
            };
        lemma_readies_row(cache, before.in_use, width, height, ready, top);
        lemma_readies_row_rows(cache, before.in_use, width, height, ready, top);
        lemma_moved_to_back(ready.order, top);
        assert(after.cache.order.last() == top);
        assert forall|t: u32| #[trigger] before.in_use.contains(t) implies keeps_row(
            cache,
            after.cache,
            t,
        ) by {
            let glyphs = cache.rows[t].glyphs;
            assert(cache.rows.contains_key(t));
            assert(glyphs =~= after.cache.rows[t].glyphs.subrange(0, glyphs.len() as int));
        }
        assert forall|t: u32, j: int|
            #![trigger after.cache.rows[t].glyphs[j]]
            after.cache.rows.contains_key(t) && 0 <= j
                < after.cache.rows[t].glyphs.len() implies is_old_cell(cache, after.cache, t, j)
            || is_new_cell(after, t, j) by {
            if t != top || j < ready.rows[t].glyphs.len() {
                assert(ready.rows.contains_key(t));
                assert(after.cache.rows[t].glyphs[j] == ready.rows[t].glyphs[j]);
            }
        }
    }
}

// A run of glyphs.

/// What holds at every moment of a run.
pub proof fn lemma_run(
    queue: Seq<(usize, PositionedGlyph)>,
    run: Seq<Moment>,
    comparison: Comparison,
    k: int,
)
    requires
        is_run(queue, run, comparison),
        run[0].cache.wf(),
        run[0].cache.queue == queue,
        0 <= k < run.len(),
    ensures
        run[k].cache.wf(),
        run[k].cache.same_settings(run[0].cache),
        run[0].uploads.len() <= run[k].uploads.len(),
        run[k].uploads.take(run[0].uploads.len() as int) == run[0].uploads,
        forall|i: int|
            run[0].uploads.len() <= i < run[k].uploads.len() ==> is_upload_of(
                run[0].cache,
                #[trigger] run[k].uploads[i],
            ),
    decreases k,
{
    if k == 0 {
        assert(run[0].uploads.take(run[0].uploads.len() as int) =~= run[0].uploads);
    } else {
        lemma_run(queue, run, comparison, k - 1);
        let before = run[k - 1];
        let after = run[k];
        assert(deals_with(run[k - 1], queue[k - 1], run[k - 1 + 1], comparison));
        assert(before.cache.queue[k - 1] == queue[k - 1]);
        lemma_deals_with(before, queue[k - 1], after, comparison);
        let n = run[0].uploads.len() as int;
        if after.uploads != before.uploads {
            assert forall|i: int| 0 <= i < n implies after.uploads.take(n)[i]
                == run[0].uploads[i] by {
                assert(after.uploads.drop_last()[i] == before.uploads[i]);
                assert(before.uploads.take(n)[i] == before.uploads[i]);
            }
            assert(after.uploads.take(n) =~= run[0].uploads);
            assert forall|i: int| n <= i < after.uploads.len() implies is_upload_of(
                run[0].cache,
                #[trigger] after.uploads[i],
            ) by {
                if i < before.uploads.len() {
                    assert(after.uploads.drop_last()[i] == before.uploads[i]);
                } else {
                    assert(after.uploads[i] == after.uploads.last());
                    assert(queue[k - 1] == (after.uploads[i].font_id, after.uploads[i].glyph));
                }
            }
        }
    }
}

/// Sorting a queue changes neither whether it holds a glyph nor whether its glyphs can
/// be cached.
pub proof fn lemma_sorts_queue(cache: CacheView, sorted: CacheView)
    requires
        sorts_queue(cache, sorted),
    ensures
        cache.wf() ==> sorted.wf(),
        sorted.queue.len() == cache.queue.len(),
        forall|q: (usize, PositionedGlyph)| #[trigger]
            sorted.queue.contains(q) <==> cache.queue.contains(q),
{
    broadcast use vstd::seq_lib::group_to_multiset_ensures;

    assert(sorted.queue.to_multiset().len() == cache.queue.to_multiset().len());
    assert forall|q: (usize, PositionedGlyph)| #[trigger]
        sorted.queue.contains(q) <==> cache.queue.contains(q) by {
        assert(sorted.queue.to_multiset().count(q) == cache.queue.to_multiset().count(q));
    }
    if cache.wf() {
        assert forall|i: int| 0 <= i < sorted.queue.len() implies (
        #[trigger] sorted.queue[i]).1.bounding_box is Some && sorted.queue[i].1.is_drawable() by {
            assert(sorted.queue.contains(sorted.queue[i]));
            assert(cache.queue.contains(sorted.queue[i]));
        }
        cache.lemma_same_contents(sorted);
    }
}

/// What holds after a pass.
pub proof fn lemma_pass(
    cache: CacheView,
    uploads: Seq<Upload>,
    after: Moment,
    end: PassEnd,
    comparison: Comparison,
)
    requires
        cache.wf(),
        is_pass(cache, uploads, after, end, comparison),
    ensures
        after.cache.wf(),
        after.cache.same_settings(cache),
        uploads.len() <= after.uploads.len(),
        after.uploads.take(uploads.len() as int) == uploads,
        forall|i: int|
            uploads.len() <= i < after.uploads.len() ==> is_upload_of(
                cache,
                #[trigger] after.uploads[i],
            ),
        end == PassEnd::TooLarge ==> exists|i: int|
            0 <= i < cache.queue.len() && too_large(cache, (#[trigger] cache.queue[i]).1),
        end == PassEnd::Stuck ==> cache.queue.len() > 1,
{
    let run = choose|run: Seq<Moment>| #[trigger]
        is_run_of_pass(cache, uploads, run, after, end, comparison);
    let k = run.len() - 1;
    lemma_run(cache.queue, run, comparison, k);
    let last = run[k];
    if end == PassEnd::TooLarge {
        assert(too_large(cache, cache.queue[k].1));
    }
    if end == PassEnd::Stuck {
        let queued = cache.queue[k];
        let (width, height) = last.cache.padded_size(queued.1);
        assert(last.cache.queue[k].1.is_drawable());
        last.cache.lemma_made_room(last.in_use, height);
        if k == 0 {
            assert(last.in_use =~= Set::empty());
        }
    }
}

/// An attempt at caching a queue.
pub struct Attempt {
    /// The cache that it started from.
    pub start: CacheView,
    /// The uploads before it.
    pub uploads: Seq<Upload>,
    /// The moment that it led to.
    pub last: Moment,
    /// How it ended.
    pub end: PassEnd,
}

/// The first attempt at caching a queue. It is the last one unless it gets stuck.
pub proof fn lemma_first_attempt(
    before: CacheView,
    uploads_before: Seq<Upload>,
    after: CacheView,
    uploads: Seq<Upload>,
    result: Result<(), CacheWriteErr>,
    comparison: Comparison,
) -> (attempt: Attempt)
    requires
        before.wf(),
        caches_queue(before, uploads_before, after, uploads, result, comparison),
    ensures
        attempt.start.wf(),
        sorts_queue(before, attempt.start),
        attempt.start.queue.len() == before.queue.len(),
        forall|q: (usize, PositionedGlyph)| #[trigger]
            attempt.start.queue.contains(q) <==> before.queue.contains(q),
        attempt.uploads == uploads_before,
        is_pass(attempt.start, attempt.uploads, attempt.last, attempt.end, comparison),
        if attempt.end == PassEnd::Stuck {
            caches_after_clearing(before.queue, attempt.last, after, uploads, result, comparison)
        } else {
            ends_caching(before.queue, attempt.last, attempt.end, after, uploads, result)
        },
{
    let (sorted, last, end) = choose|sorted: CacheView, last: Moment, end: PassEnd|
        {
            &&& sorts_queue(before, sorted)
            &&& #[trigger] is_pass(sorted, uploads_before, last, end, comparison)
            &&& if end == PassEnd::Stuck {
                caches_after_clearing(before.queue, last, after, uploads, result, comparison)
            } else {
                ends_caching(before.queue, last, end, after, uploads, result)
            }
        };
    lemma_sorts_queue(before, sorted);
    Attempt { start: sorted, uploads: uploads_before, last, end }
}

/// What holds of the last attempt at caching a queue.
pub proof fn lemma_last_attempt(
    before: CacheView,
    uploads_before: Seq<Upload>,
    after: CacheView,
    uploads: Seq<Upload>,
    result: Result<(), CacheWriteErr>,
    comparison: Comparison,
) -> (attempt: Attempt)
    requires
        before.wf(),
        caches_queue(before, uploads_before, after, uploads, result, comparison),
    ensures
        attempt.start.wf(),
        attempt.start.same_settings(CacheView { queue: attempt.start.queue, ..before }),
        attempt.start.queue.to_multiset() == before.queue.to_multiset(),
        uploads_before.is_prefix_of(attempt.uploads),
        forall|i: int|
            uploads_before.len() <= i < attempt.uploads.len() ==> is_upload_of(
                before,
                #[trigger] attempt.uploads[i],
            ),
        (attempt.start.rows == before.rows && attempt.start.all_glyphs == before.all_glyphs
            && attempt.uploads == uploads_before) || attempt.start.rows == Map::<
            u32,
            RowView,
        >::empty(),
        is_pass(attempt.start, attempt.uploads, attempt.last, attempt.end, comparison),
        ends_caching(before.queue, attempt.last, attempt.end, after, uploads, result),
        sorts_queue(before.cleared(), attempt.start.cleared()),
        attempt.end == PassEnd::Stuck ==> attempt.start == attempt.start.cleared(),
        sorts_queue(before, attempt.start) && attempt.uploads == uploads_before || exists|
            sorted: CacheView,
            stuck: Moment,
        |
            {
                &&& sorts_queue(before, sorted)
                &&& #[trigger] is_pass(sorted, uploads_before, stuck, PassEnd::Stuck, comparison)
                &&& attempt.start == stuck.cache.cleared()
                &&& attempt.uploads == stuck.uploads
            },
{
    let a = lemma_first_attempt(before, uploads_before, after, uploads, result, comparison);
    let (sorted, first, end) = (a.start, a.last, a.end);
    if end == PassEnd::Stuck {
        lemma_pass(sorted, uploads_before, first, end, comparison);
        let cleared = first.cache.cleared();
        first.cache.lemma_cleared();
        let (last, last_end) = choose|last: Moment, end: PassEnd|
            {
                &&& #[trigger] is_pass(cleared, first.uploads, last, end, comparison)
                &&& ends_caching(before.queue, last, end, after, uploads, result)
            };
        assert(cleared =~= sorted.cleared());
        assert forall|i: int| uploads_before.len() <= i < first.uploads.len() implies is_upload_of(
            before,
            #[trigger] first.uploads[i],
        ) by {
            assert(is_upload_of(sorted, first.uploads[i]));
        }
        assert(uploads_before =~= first.uploads.subrange(0, uploads_before.len() as int));
        Attempt { start: cleared, uploads: first.uploads, last, end: last_end }
    } else {
        assert(uploads_before =~= uploads_before.subrange(0, uploads_before.len() as int));
        a
    }
}

/// What holds after caching a queue.
pub proof fn lemma_caching(
    before: CacheView,
    uploads_before: Seq<Upload>,
    after: CacheView,
    uploads: Seq<Upload>,
    result: Result<(), CacheWriteErr>,
    comparison: Comparison,
)
    requires
        before.wf(),
        caches_queue(before, uploads_before, after, uploads, result, comparison),
    ensures
        after.wf(),
        after.same_settings(CacheView { queue: after.queue, ..before }),
        uploads_before.is_prefix_of(uploads),
        forall|i: int|
            uploads_before.len() <= i < uploads.len() ==> is_upload_of(
                before,
                #[trigger] uploads[i],
            ),
        result is Err ==> after.queue == before.queue,
        result is Ok ==> after.queue.len() == 0,
        result == Err::<(), CacheWriteErr>(CacheWriteErr::GlyphTooLarge) ==> exists|i: int|
            0 <= i < before.queue.len() && too_large(before, (#[trigger] before.queue[i]).1),
        result == Err::<(), CacheWriteErr>(CacheWriteErr::NoRoomForWholeQueue)
            ==> before.queue.len() > 1,
{
    let a = lemma_last_attempt(before, uploads_before, after, uploads, result, comparison);
    lemma_pass(a.start, a.uploads, a.last, a.end, comparison);
    lemma_other_queue(a.last.cache, before, after);
    lemma_prefix(uploads_before, a.uploads, uploads);
    lemma_too_large_unsorted(before, a.start);
    assert forall|i: int| uploads_before.len() <= i < uploads.len() implies is_upload_of(
        before,
        #[trigger] uploads[i],
    ) by {
        if i < a.uploads.len() {
            assert(uploads.take(a.uploads.len() as int)[i] == uploads[i]);
            assert(is_upload_of(before, a.uploads[i]));
        } else {
            assert(is_upload_of(a.start, uploads[i]));
            lemma_same_uploads(before, a.start, uploads[i]);
        }
    }
}

/// An upload of a glyph in a sorted queue is one of a glyph in the unsorted one.
proof fn lemma_same_uploads(cache: CacheView, sorted: CacheView, u: Upload)
    requires
        sorted.same_settings(CacheView { queue: sorted.queue, ..cache }),
        sorted.queue.to_multiset() == cache.queue.to_multiset(),
        is_upload_of(sorted, u),
    ensures
        is_upload_of(cache, u),
{
    broadcast use vstd::seq_lib::group_to_multiset_ensures;

    let queued = (u.font_id, u.glyph);
    assert(cache.queue.to_multiset().count(queued) > 0);
}

/// A cache may have the queue of another with the same settings, or none.
proof fn lemma_other_queue(cache: CacheView, other: CacheView, after: CacheView)
    requires
        cache.wf(),
        other.queue_wf(),
        other.pad_glyphs == cache.pad_glyphs,
        after == with_queue(cache, other.queue) || after == with_queue(cache, Seq::empty()),
    ensures
        after.wf(),
{
    cache.lemma_same_contents(after);
}

/// What comes before a longer list comes before what follows it.
proof fn lemma_prefix(a: Seq<Upload>, b: Seq<Upload>, c: Seq<Upload>)
    requires
        a.is_prefix_of(b),
        b.len() <= c.len(),
        c.take(b.len() as int) == b,
    ensures
        a.is_prefix_of(c),
{
    assert forall|i: int| 0 <= i < a.len() implies a[i] == c[i] by {
        assert(b.subrange(0, a.len() as int)[i] == b[i]);
        assert(c.take(b.len() as int)[i] == c[i]);
    }
    assert(a =~= c.subrange(0, a.len() as int));
}

/// A sorted queue is as long as the unsorted one, and holds a glyph that is too large
/// only if the unsorted one does.
proof fn lemma_too_large_unsorted(cache: CacheView, sorted: CacheView)
    requires
        sorted.same_settings(CacheView { queue: sorted.queue, ..cache }),
        sorted.queue.to_multiset() == cache.queue.to_multiset(),
    ensures
        sorted.queue.len() == cache.queue.len(),
        (exists|i: int|
            0 <= i < sorted.queue.len() && too_large(sorted, (#[trigger] sorted.queue[i]).1))
            ==> exists|i: int|
            0 <= i < cache.queue.len() && too_large(cache, (#[trigger] cache.queue[i]).1),
{
    broadcast use vstd::seq_lib::group_to_multiset_ensures;

    assert(sorted.queue.len() == sorted.queue.to_multiset().len());
    assert(cache.queue.len() == cache.queue.to_multiset().len());
    if exists|i: int|
        0 <= i < sorted.queue.len() && too_large(sorted, (#[trigger] sorted.queue[i]).1) {
        let i = choose|i: int|
            0 <= i < sorted.queue.len() && too_large(sorted, (#[trigger] sorted.queue[i]).1);
        let q = sorted.queue[i];
        assert(sorted.queue.contains(q));
        assert(cache.queue.to_multiset().count(q) > 0);
        assert(cache.queue.contains(q));
        let j = choose|j: int| 0 <= j < cache.queue.len() && cache.queue[j] == q;
        assert(too_large(cache, cache.queue[j].1));
    }
}

} // verus!
