//! What happens when the same is done again.
//!
//! Which of several gaps a new row takes is left open. In caches that were cleared that
//! makes no difference: these never have more than one gap while a queue is being
//! cached.

use crate::arithmetic::{Arithmetic, Comparison};
use crate::caching::{
    adds, are_answers, caches_after_clearing, caches_queue, deals_with, ends_caching, finds_row,
    if_matching, is_pass, is_run, is_run_of_pass, is_stuck, lower_neighbour, matching_row,
    newest_fit, readies_row, refuses, sorts_queue, upper_neighbour, with_queue, Answers, Moment,
    PassEnd,
};
use crate::collections::{height_of, of_height, tallest_first};
use crate::error::CacheWriteErr;
use crate::glyph::PositionedGlyph;
use crate::laws::queue::{drawn_tallest_first, law_attempts_draw_tallest_first, upload_height};
use crate::model::{empty_cache, CacheView};
use crate::passes::{
    lemma_caching, lemma_first_attempt, lemma_last_attempt, lemma_pass, lemma_readies_row,
    lemma_run, lemma_sorts_queue, Attempt,
};
use crate::row::font_glyph_key_spec;
use crate::scale_offset::{Differences, GlyphScaleOffset};
use crate::single::Single;
use crate::upload::Upload;
use vstd::prelude::*;

verus! {

/// Whether two versions of a glyph at the same tolerances always give the same answer
/// and the same distance.
pub open spec fn is_definite(comparison: Comparison) -> bool {
    &&& forall|a: GlyphScaleOffset, b: GlyphScaleOffset, s: Single, p: Single, x: bool, y: bool|
        #![trigger comparison.can_match(a, b, s, p, x), comparison.can_match(a, b, s, p, y)]
        comparison.can_match(a, b, s, p, x) && comparison.can_match(a, b, s, p, y) ==> x == y
    &&& forall|
        a: GlyphScaleOffset,
        b: GlyphScaleOffset,
        s: Single,
        p: Single,
        x: Single,
        y: Single,
    |
        #![trigger comparison.can_measure(a, b, s, p, x), comparison.can_measure(a, b, s, p, y)]
        comparison.can_measure(a, b, s, p, x) && comparison.can_measure(a, b, s, p, y) ==> x == y
}

/// Whether an operation on two numbers always gives the same number.
pub open spec fn is_function<F>(operation: F) -> bool where F: Fn(Single, Single) -> Single {
    forall|a: Single, b: Single, x: Single, y: Single|
        #![trigger call_ensures(operation, (a, b), x), call_ensures(operation, (a, b), y)]
        call_ensures(operation, (a, b), x) && call_ensures(operation, (a, b), y) ==> x == y
}

/// Operations that always give the same number give the same answers and distances.
pub proof fn law_functions_are_definite<S, Q, A>(arithmetic: Arithmetic<S, Q, A>)
    where
    S: Fn(Single, Single) -> Single,
    Q: Fn(Single, Single) -> Single,
    A: Fn(Single, Single) -> Single,

    requires
        is_function(arithmetic.difference),
        is_function(arithmetic.quotient),
        is_function(arithmetic.sum),
    ensures
        is_definite(arithmetic.comparison()),
{
    let comparison = arithmetic.comparison();
    let (difference, quotient, sum) = (
        arithmetic.difference,
        arithmetic.quotient,
        arithmetic.sum,
    );
    assert forall|a: GlyphScaleOffset, b: GlyphScaleOffset, s: Single, p: Single, x: bool, y: bool|
        #![trigger comparison.can_match(a, b, s, p, x), comparison.can_match(a, b, s, p, y)]
        comparison.can_match(a, b, s, p, x) && comparison.can_match(a, b, s, p, y) implies x
        == y by {
        let c = choose|c: Differences| #[trigger]
            c.are_between(a, b, difference) && x == c.are_within(s, p);
        let d = choose|d: Differences| #[trigger]
            d.are_between(a, b, difference) && y == d.are_within(s, p);
        lemma_same_differences(a, b, difference, c, d);
    }
    assert forall|
        a: GlyphScaleOffset,
        b: GlyphScaleOffset,
        s: Single,
        p: Single,
        x: Single,
        y: Single,
    |
        #![trigger comparison.can_measure(a, b, s, p, x), comparison.can_measure(a, b, s, p, y)]
        comparison.can_measure(a, b, s, p, x) && comparison.can_measure(a, b, s, p, y) implies x
        == y by {
        let (c, q) = choose|c: Differences, q: Differences| #[trigger]
            c.are_between(a, b, difference) && #[trigger] q.are_parts_of(c, s, p, quotient)
                && q.add_up_to(sum, x);
        let (d, r) = choose|d: Differences, r: Differences| #[trigger]
            d.are_between(a, b, difference) && #[trigger] r.are_parts_of(d, s, p, quotient)
                && r.add_up_to(sum, y);
        lemma_same_differences(a, b, difference, c, d);
        assert(q == r);
        lemma_same_sum(q, sum, x, y);
    }
}

/// Differences between the same versions are the same.
proof fn lemma_same_differences<S>(
    a: GlyphScaleOffset,
    b: GlyphScaleOffset,
    difference: S,
    c: Differences,
    d: Differences,
)
    where S: Fn(Single, Single) -> Single
    requires
        is_function(difference),
        c.are_between(a, b, difference),
        d.are_between(a, b, difference),
    ensures
        c == d,
{
}

/// The same numbers add up to the same.
proof fn lemma_same_sum<A>(q: Differences, sum: A, x: Single, y: Single)
    where A: Fn(Single, Single) -> Single
    requires
        is_function(sum),
        q.add_up_to(sum, x),
        q.add_up_to(sum, y),
    ensures
        x == y,
{
    let (two, three) = choose|two: Single, three: Single|
        {
            &&& #[trigger] call_ensures(sum, (q.scale.0.abs_spec(), q.scale.1.abs_spec()), two)
            &&& #[trigger] call_ensures(sum, (two, q.offset.0.abs_spec()), three)
            &&& call_ensures(sum, (three, q.offset.1.abs_spec()), x)
        };
    let (other_two, other_three) = choose|two: Single, three: Single|
        {
            &&& #[trigger] call_ensures(sum, (q.scale.0.abs_spec(), q.scale.1.abs_spec()), two)
            &&& #[trigger] call_ensures(sum, (two, q.offset.0.abs_spec()), three)
            &&& call_ensures(sum, (three, q.offset.1.abs_spec()), y)
        };
    assert(two == other_two);
    assert(three == other_three);
}

// The order of a queue.

/// There is only one order of a queue by height in which glyphs of one height stand as
/// they stood.
proof fn lemma_one_order(x: Seq<(usize, PositionedGlyph)>, y: Seq<(usize, PositionedGlyph)>)
    requires
        x.len() == y.len(),
        tallest_first(x),
        tallest_first(y),
        forall|height: int| #[trigger] of_height(x, height) == of_height(y, height),
    ensures
        x == y,
    decreases x.len(),
{
    if x.len() == 0 {
        assert(x =~= y);
    } else {
        let (xs, ys) = (x.drop_last(), y.drop_last());
        let (a, b) = (x.last(), y.last());
        lemma_last_of_height(x);
        lemma_last_of_height(y);
        lemma_is_held(x, y);
        lemma_is_held(y, x);
        let same = height_of(a);
        assert(of_height(x, same) == of_height(y, same));
        assert(of_height(x, same).last() == a);
        assert(of_height(y, same).last() == b);
        assert forall|height: int| #[trigger] of_height(xs, height) == of_height(ys, height) by {
            assert(of_height(x, height) == of_height(y, height));
            if height == height_of(a) {
                assert(of_height(xs, height) =~= of_height(x, height).drop_last());
                assert(of_height(ys, height) =~= of_height(y, height).drop_last());
            }
        }
        lemma_one_order(xs, ys);
        assert(x =~= xs.push(a));
        assert(y =~= ys.push(b));
    }
}

/// The last glyph of a queue is the last one of its height.
proof fn lemma_last_of_height(x: Seq<(usize, PositionedGlyph)>)
    requires
        x.len() > 0,
    ensures
        forall|height: int| #[trigger]
            of_height(x, height) == if height == height_of(x.last()) {
                of_height(x.drop_last(), height).push(x.last())
            } else {
                of_height(x.drop_last(), height)
            },
{
    reveal(Seq::filter);
}

/// Where glyphs of one height stand alike, no queue ends with a lower glyph.
proof fn lemma_is_held(x: Seq<(usize, PositionedGlyph)>, y: Seq<(usize, PositionedGlyph)>)
    requires
        x.len() > 0,
        y.len() > 0,
        tallest_first(y),
        forall|height: int| #[trigger] of_height(x, height) == of_height(y, height),
    ensures
        height_of(x.last()) >= height_of(y.last()),
{
    let height = height_of(x.last());
    let pred = |queued: (usize, PositionedGlyph)| height_of(queued) == height;
    lemma_last_of_height(x);
    assert(of_height(x, height) == of_height(y, height));
    assert(of_height(x, height).last() == x.last());
    assert(y.filter(pred).contains(x.last()));
    y.lemma_filter_contains_rev(pred, x.last());
    let i = choose|i: int| 0 <= i < y.len() && y[i] == x.last();
    assert(height_of(y[i]) >= height_of(y[y.len() - 1]));
}

/// A queue is sorted in one way.
proof fn lemma_same_sorted(cache: CacheView, sorted: CacheView, other: CacheView)
    requires
        sorts_queue(cache, sorted),
        sorts_queue(cache, other),
    ensures
        sorted == other,
{
    lemma_sorts_queue(cache, sorted);
    lemma_sorts_queue(cache, other);
    assert forall|height: int| #[trigger]
        of_height(sorted.queue, height) == of_height(other.queue, height) by {
        assert(of_height(sorted.queue, height) == of_height(cache.queue, height));
    }
    lemma_one_order(sorted.queue, other.queue);
}

// One glyph.

/// Whether all rows are in use and there is at most one gap.
pub open spec fn is_packed(m: Moment) -> bool {
    &&& forall|t: u32| #[trigger] m.cache.rows.contains_key(t) ==> m.in_use.contains(t)
    &&& forall|a: u32, b: u32|
        #![trigger m.cache.space_end_for_start.contains_key(a), m.cache.space_end_for_start.contains_key(b)]
        m.cache.space_end_for_start.contains_key(a) && m.cache.space_end_for_start.contains_key(b)
            ==> a == b
}

/// Whether two moments differ only in what was drawn before.
pub open spec fn are_alike(a: Moment, a_from: int, b: Moment, b_from: int) -> bool {
    &&& a.cache == b.cache
    &&& a.in_use == b.in_use
    &&& 0 <= a_from <= a.uploads.len()
    &&& 0 <= b_from <= b.uploads.len()
    &&& a.uploads.skip(a_from) == b.uploads.skip(b_from)
}

/// What is found is always the same.
proof fn lemma_finds_one(
    cache: CacheView,
    queued: (usize, PositionedGlyph),
    comparison: Comparison,
    x: Option<u32>,
    y: Option<u32>,
)
    requires
        is_definite(comparison),
        finds_row(cache, queued, comparison, x),
        finds_row(cache, queued, comparison, y),
    ensures
        x == y,
{
    let tree = cache.tree(font_glyph_key_spec((queued.0, queued.1.id)));
    let spec = queued.1.spec();
    let a = choose|a: Answers| #[trigger]
        are_answers(cache, tree, spec, comparison, a) && x == matching_row(tree, spec, a);
    let b = choose|b: Answers| #[trigger]
        are_answers(cache, tree, spec, comparison, b) && y == matching_row(tree, spec, b);
    let lower = lower_neighbour(tree, spec);
    let upper = upper_neighbour(tree, spec);
    assert(lower is Some ==> a.lower == b.lower);
    assert(upper is Some ==> a.upper == b.upper);
    assert(if_matching(lower, a.lower) == if_matching(lower, b.lower));
    assert(if_matching(upper, a.upper) == if_matching(upper, b.upper));
}

/// A packed cache has one row ready for a glyph, without evicting another.
proof fn lemma_readies_one(
    m: Moment,
    width: int,
    height: int,
    ready: CacheView,
    top: u32,
    other: CacheView,
    other_top: u32,
)
    requires
        m.cache.wf(),
        is_packed(m),
        0 <= height <= m.cache.height,
        0 <= width <= m.cache.width,
        readies_row(m.cache, m.in_use, width, height, ready, top),
        readies_row(m.cache, m.in_use, width, height, other, other_top),
    ensures
        ready == other,
        top == other_top,
        is_packed(Moment { cache: ready, in_use: m.in_use.insert(top), ..m }),
{
    let cache = m.cache;
    lemma_readies_row(cache, m.in_use, width, height, ready, top);
    if newest_fit(cache, cache.order, width, height) is None {
        if cache.has_gap(height) {
            assert(cache.space_end_for_start.contains_key(top));
            assert(cache.space_end_for_start.contains_key(other_top));
            assert forall|a: u32| #[trigger]
                ready.space_end_for_start.contains_key(a) implies a == (top
                + height) as u32 by {
                if a != (top + height) as u32 {
                    assert(cache.space_end_for_start.contains_key(a));
                }
            }
        } else if cache.order.len() > 0 {
            assert(cache.order.contains(cache.order[0]));
            assert(m.in_use.contains(cache.order[0]));
        }
    }
}

/// Dealing with a glyph leads from moments that are alike to moments that are alike, and
/// a packed cache stays packed.
proof fn lemma_deals_alike(
    a: Moment,
    a_from: int,
    b: Moment,
    b_from: int,
    queued: (usize, PositionedGlyph),
    a_after: Moment,
    b_after: Moment,
    comparison: Comparison,
)
    requires
        a.cache.wf(),
        is_packed(a),
        are_alike(a, a_from, b, b_from),
        is_definite(comparison),
        queued.1.bounding_box is Some,
        queued.1.is_drawable(),
        deals_with(a, queued, a_after, comparison),
        deals_with(b, queued, b_after, comparison),
    ensures
        is_packed(a_after),
        are_alike(a_after, a_from, b_after, b_from),
{
    let cache = a.cache;
    let (width, height) = cache.padded_size(queued.1);
    if exists|top: u32| #[trigger]
        finds_row(cache, queued, comparison, Some(top)) && a_after == a.found(top) {
        let top = choose|top: u32| #[trigger]
            finds_row(cache, queued, comparison, Some(top)) && a_after == a.found(top);
        if finds_row(cache, queued, comparison, None) {
            lemma_finds_one(cache, queued, comparison, Some(top), None);
        }
        let other = choose|other: u32| #[trigger]
            finds_row(cache, queued, comparison, Some(other)) && b_after == b.found(other);
        lemma_finds_one(cache, queued, comparison, Some(top), Some(other));
    } else {
        let (ready, top) = choose|ready: CacheView, top: u32|
            {
                &&& #[trigger] readies_row(cache, a.in_use, width, height, ready, top)
                &&& ready.rows[top].glyphs.len() < usize::MAX
                &&& a_after == a.added(ready, top, queued)
            };
        if exists|other: u32| #[trigger]
            finds_row(cache, queued, comparison, Some(other)) && b_after == b.found(other) {
            let other = choose|other: u32| #[trigger]
                finds_row(cache, queued, comparison, Some(other)) && b_after == b.found(other);
            lemma_finds_one(cache, queued, comparison, None, Some(other));
        }
        let (other, other_top) = choose|other: CacheView, other_top: u32|
            {
                &&& #[trigger] readies_row(cache, b.in_use, width, height, other, other_top)
                &&& other.rows[other_top].glyphs.len() < usize::MAX
                &&& b_after == b.added(other, other_top, queued)
            };
        lemma_readies_one(a, width, height, ready, top, other, other_top);
        lemma_added_alike(a, a_from, b, b_from, ready, top, queued);
    }
}

/// Adding a glyph leads from moments that are alike to moments that are alike.
proof fn lemma_added_alike(
    a: Moment,
    a_from: int,
    b: Moment,
    b_from: int,
    ready: CacheView,
    top: u32,
    queued: (usize, PositionedGlyph),
)
    requires
        are_alike(a, a_from, b, b_from),
        is_packed(Moment { cache: ready, in_use: a.in_use.insert(top), ..a }),
    ensures
        is_packed(a.added(ready, top, queued)),
        are_alike(a.added(ready, top, queued), a_from, b.added(ready, top, queued), b_from),
{
    let (a_after, b_after) = (a.added(ready, top, queued), b.added(ready, top, queued));
    let m = Moment { cache: ready, in_use: a.in_use.insert(top), ..a };
    assert forall|t: u32| #[trigger] a_after.cache.rows.contains_key(
        t,
    ) implies a_after.in_use.contains(t) by {
        if t != top {
            assert(m.cache.rows.contains_key(t));
        }
    }
    assert forall|s: u32, t: u32|
        #![trigger a_after.cache.space_end_for_start.contains_key(s), a_after.cache.space_end_for_start.contains_key(t)]
        a_after.cache.space_end_for_start.contains_key(s)
            && a_after.cache.space_end_for_start.contains_key(t) implies s == t by {
        assert(m.cache.space_end_for_start.contains_key(s));
        assert(m.cache.space_end_for_start.contains_key(t));
    }
    assert(a_after.uploads.skip(a_from) =~= a.uploads.skip(a_from).push(a_after.uploads.last()));
    assert(b_after.uploads.skip(b_from) =~= b.uploads.skip(b_from).push(b_after.uploads.last()));
}

/// How a pass goes on depends on the cache and the rows in use alone: a glyph that is
/// dealt with is neither refused nor does the pass get stuck at it.
proof fn lemma_ends_alike(
    a: Moment,
    a_from: int,
    b: Moment,
    b_from: int,
    queued: (usize, PositionedGlyph),
    comparison: Comparison,
)
    requires
        a.cache.wf(),
        are_alike(a, a_from, b, b_from),
        is_definite(comparison),
    ensures
        forall|next: Moment|
            !(#[trigger] deals_with(a, queued, next, comparison) && refuses(
                b,
                queued,
                comparison,
            )),
        forall|next: Moment, last: Moment|
            !(#[trigger] deals_with(a, queued, next, comparison) && #[trigger] is_stuck(
                b,
                queued,
                last,
                comparison,
            )),
        forall|last: Moment|
            !(refuses(a, queued, comparison) && #[trigger] is_stuck(b, queued, last, comparison)),
        forall|next: Moment, last: Moment| #[trigger]
            is_stuck(a, queued, next, comparison) && #[trigger] is_stuck(
                b,
                queued,
                last,
                comparison,
            ) ==> are_alike(next, a_from, last, b_from),
{
    assert forall|next: Moment| #[trigger]
        deals_with(a, queued, next, comparison) && finds_row(
            b.cache,
            queued,
            comparison,
            None,
        ) implies adds(a, queued, next) by {
        if exists|top: u32| #[trigger]
            finds_row(a.cache, queued, comparison, Some(top)) && next == a.found(top) {
            let top = choose|top: u32| #[trigger]
                finds_row(a.cache, queued, comparison, Some(top)) && next == a.found(top);
            lemma_finds_one(a.cache, queued, comparison, Some(top), None);
        }
    }
}

// A pass.

/// The runs of two passes over the same packed cache go the same way.
proof fn lemma_runs_alike(
    queue: Seq<(usize, PositionedGlyph)>,
    x: Seq<Moment>,
    y: Seq<Moment>,
    comparison: Comparison,
    k: int,
)
    requires
        is_run(queue, x, comparison),
        is_run(queue, y, comparison),
        x[0].cache.wf(),
        x[0].cache.queue == queue,
        is_packed(x[0]),
        are_alike(x[0], x[0].uploads.len() as int, y[0], y[0].uploads.len() as int),
        is_definite(comparison),
        0 <= k < x.len(),
        k < y.len(),
    ensures
        is_packed(x[k]),
        are_alike(x[k], x[0].uploads.len() as int, y[k], y[0].uploads.len() as int),
    decreases k,
{
    if k > 0 {
        let (m, n) = (x[0].uploads.len() as int, y[0].uploads.len() as int);
        lemma_run(queue, x, comparison, k - 1);
        lemma_runs_alike(queue, x, y, comparison, k - 1);
        assert(deals_with(x[k - 1], queue[k - 1], x[k - 1 + 1], comparison));
        assert(deals_with(y[k - 1], queue[k - 1], y[k - 1 + 1], comparison));
        assert(x[k - 1].cache.queue[k - 1] == queue[k - 1]);
        lemma_deals_alike(x[k - 1], m, y[k - 1], n, queue[k - 1], x[k], y[k], comparison);
    }
}

/// Two passes over the same cleared cache end the same way.
proof fn lemma_passes_alike(
    cache: CacheView,
    x_uploads: Seq<Upload>,
    x: Moment,
    x_end: PassEnd,
    y_uploads: Seq<Upload>,
    y: Moment,
    y_end: PassEnd,
    comparison: Comparison,
)
    requires
        cache.wf(),
        cache == cache.cleared(),
        is_definite(comparison),
        is_pass(cache, x_uploads, x, x_end, comparison),
        is_pass(cache, y_uploads, y, y_end, comparison),
    ensures
        x_end == y_end,
        are_alike(x, x_uploads.len() as int, y, y_uploads.len() as int),
{
    let (m, n) = (x_uploads.len() as int, y_uploads.len() as int);
    let xs = choose|run: Seq<Moment>| #[trigger]
        is_run_of_pass(cache, x_uploads, run, x, x_end, comparison);
    let ys = choose|run: Seq<Moment>| #[trigger]
        is_run_of_pass(cache, y_uploads, run, y, y_end, comparison);
    assert(x_uploads.skip(m) =~= y_uploads.skip(n));
    let k = if xs.len() <= ys.len() {
        xs.len() - 1
    } else {
        ys.len() - 1
    };
    lemma_runs_alike(cache.queue, xs, ys, comparison, k);
    lemma_run(cache.queue, xs, comparison, k);
    if k < cache.queue.len() {
        let queued = cache.queue[k];
        lemma_ends_alike(xs[k], m, ys[k], n, queued, comparison);
        lemma_ends_alike(ys[k], n, xs[k], m, queued, comparison);
        if k < xs.len() - 1 {
            assert(deals_with(xs[k], cache.queue[k], xs[k + 1], comparison));
        }
        if k < ys.len() - 1 {
            assert(deals_with(ys[k], cache.queue[k], ys[k + 1], comparison));
        }
    }
}

// A queue.

/// A queue is cached into a new or cleared cache in one way: the result, the cache and
/// the new uploads are always the same.
pub proof fn law_cleared_caches_are_alike(
    before: CacheView,
    x_uploads: Seq<Upload>,
    x_after: CacheView,
    x_drawn: Seq<Upload>,
    x_result: Result<(), CacheWriteErr>,
    y_uploads: Seq<Upload>,
    y_after: CacheView,
    y_drawn: Seq<Upload>,
    y_result: Result<(), CacheWriteErr>,
    comparison: Comparison,
)
    requires
        before.wf(),
        before == before.cleared(),
        is_definite(comparison),
        caches_queue(before, x_uploads, x_after, x_drawn, x_result, comparison),
        caches_queue(before, y_uploads, y_after, y_drawn, y_result, comparison),
    ensures
        x_result == y_result,
        x_after == y_after,
        x_drawn.skip(x_uploads.len() as int) == y_drawn.skip(y_uploads.len() as int),
{
    let x = lemma_first_attempt(before, x_uploads, x_after, x_drawn, x_result, comparison);
    let y = lemma_first_attempt(before, y_uploads, y_after, y_drawn, y_result, comparison);
    lemma_same_sorted(before, x.start, y.start);
    assert(x.start =~= x.start.cleared());
    lemma_passes_alike(x.start, x_uploads, x.last, x.end, y_uploads, y.last, y.end, comparison);
    lemma_pass(x.start, x_uploads, x.last, x.end, comparison);
    lemma_pass(y.start, y_uploads, y.last, y.end, comparison);
    if x.end == PassEnd::Stuck {
        lemma_second_attempts_alike(
            x,
            x_after,
            x_drawn,
            x_result,
            y,
            y_after,
            y_drawn,
            y_result,
            before.queue,
            comparison,
        );
    }
}

/// After first attempts that are alike and get stuck, second attempts are alike.
proof fn lemma_second_attempts_alike(
    x: Attempt,
    x_after: CacheView,
    x_drawn: Seq<Upload>,
    x_result: Result<(), CacheWriteErr>,
    y: Attempt,
    y_after: CacheView,
    y_drawn: Seq<Upload>,
    y_result: Result<(), CacheWriteErr>,
    queue: Seq<(usize, PositionedGlyph)>,
    comparison: Comparison,
)
    requires
        is_definite(comparison),
        x.last.cache.tolerances_wf(),
        x.last.cache.queue_wf(),
        are_alike(x.last, x.uploads.len() as int, y.last, y.uploads.len() as int),
        caches_after_clearing(queue, x.last, x_after, x_drawn, x_result, comparison),
        caches_after_clearing(queue, y.last, y_after, y_drawn, y_result, comparison),
    ensures
        x_result == y_result,
        x_after == y_after,
        x_drawn.skip(x.uploads.len() as int) == y_drawn.skip(y.uploads.len() as int),
{
    let a = lemma_second_attempt(x, queue, x_after, x_drawn, x_result, comparison);
    let b = lemma_second_attempt(y, queue, y_after, y_drawn, y_result, comparison);
    lemma_passes_alike(
        a.start,
        x.last.uploads,
        a.last,
        a.end,
        y.last.uploads,
        b.last,
        b.end,
        comparison,
    );
    lemma_pass(a.start, x.last.uploads, a.last, a.end, comparison);
    lemma_pass(b.start, y.last.uploads, b.last, b.end, comparison);
    lemma_skip(a.last.uploads, x.last.uploads, x.uploads.len() as int);
    lemma_skip(b.last.uploads, y.last.uploads, y.uploads.len() as int);
}

/// What was drawn in two parts is one after the other.
proof fn lemma_skip(drawn: Seq<Upload>, first: Seq<Upload>, from: int)
    requires
        0 <= from <= first.len() <= drawn.len(),
        drawn.take(first.len() as int) == first,
    ensures
        drawn.skip(from) == first.skip(from) + drawn.skip(first.len() as int),
{
    assert forall|i: int| 0 <= i < first.len() implies drawn[i] == first[i] by {
        assert(drawn.take(first.len() as int)[i] == drawn[i]);
    }
    assert(drawn.skip(from) =~= first.skip(from) + drawn.skip(first.len() as int));
}

/// The second attempt at caching a queue, after the first got stuck.
proof fn lemma_second_attempt(
    first: Attempt,
    queue: Seq<(usize, PositionedGlyph)>,
    after: CacheView,
    uploads: Seq<Upload>,
    result: Result<(), CacheWriteErr>,
    comparison: Comparison,
) -> (attempt: Attempt)
    requires
        first.last.cache.tolerances_wf(),
        first.last.cache.queue_wf(),
        caches_after_clearing(queue, first.last, after, uploads, result, comparison),
    ensures
        attempt.start.wf(),
        attempt.start == first.last.cache.cleared(),
        attempt.uploads == first.last.uploads,
        is_pass(attempt.start, attempt.uploads, attempt.last, attempt.end, comparison),
        ends_caching(queue, attempt.last, attempt.end, after, uploads, result),
{
    let cleared = first.last.cache.cleared();
    first.last.cache.lemma_cleared();
    let (last, end) = choose|last: Moment, end: PassEnd|
        {
            &&& #[trigger] is_pass(cleared, first.last.uploads, last, end, comparison)
            &&& ends_caching(queue, last, end, after, uploads, result)
        };
    Attempt { start: cleared, uploads: first.last.uploads, last, end }
}

/// A cache that is cleared is as good as a new one with the same settings and the same
/// queue: the next call gives the same result, and asks for the same uploads.
pub proof fn law_cleared_is_as_good_as_new(
    cache: CacheView,
    fresh: CacheView,
    x_uploads: Seq<Upload>,
    x_after: CacheView,
    x_drawn: Seq<Upload>,
    x_result: Result<(), CacheWriteErr>,
    y_uploads: Seq<Upload>,
    y_after: CacheView,
    y_drawn: Seq<Upload>,
    y_result: Result<(), CacheWriteErr>,
    comparison: Comparison,
)
    requires
        cache.wf(),
        fresh == with_queue(
            empty_cache(
                cache.width,
                cache.height,
                cache.scale_tolerance,
                cache.position_tolerance,
                cache.pad_glyphs,
            ),
            cache.queue,
        ),
        is_definite(comparison),
        caches_queue(cache.cleared(), x_uploads, x_after, x_drawn, x_result, comparison),
        caches_queue(fresh, y_uploads, y_after, y_drawn, y_result, comparison),
    ensures
        x_result == y_result,
        x_after == y_after,
        x_drawn.skip(x_uploads.len() as int) == y_drawn.skip(y_uploads.len() as int),
{
    cache.lemma_cleared();
    assert(fresh =~= cache.cleared());
    law_cleared_caches_are_alike(
        fresh,
        x_uploads,
        x_after,
        x_drawn,
        x_result,
        y_uploads,
        y_after,
        y_drawn,
        y_result,
        comparison,
    );
}

/// A queue for which there was no room is refused again after clearing the cache.
pub proof fn law_refused_queues_are_refused_again(
    before: CacheView,
    uploads_before: Seq<Upload>,
    after: CacheView,
    uploads: Seq<Upload>,
    drawn_before: Seq<Upload>,
    again: CacheView,
    drawn: Seq<Upload>,
    result: Result<(), CacheWriteErr>,
    comparison: Comparison,
)
    requires
        before.wf(),
        is_definite(comparison),
        caches_queue(
            before,
            uploads_before,
            after,
            uploads,
            Err(CacheWriteErr::NoRoomForWholeQueue),
            comparison,
        ),
        caches_queue(after.cleared(), drawn_before, again, drawn, result, comparison),
    ensures
        result == Err::<(), CacheWriteErr>(CacheWriteErr::NoRoomForWholeQueue),
{
    let refused = Err::<(), CacheWriteErr>(CacheWriteErr::NoRoomForWholeQueue);
    let a = lemma_last_attempt(before, uploads_before, after, uploads, refused, comparison);
    lemma_caching(before, uploads_before, after, uploads, refused, comparison);
    let cleared = after.cleared();
    after.lemma_cleared();
    assert(cleared =~= before.cleared());
    let x = lemma_first_attempt(cleared, drawn_before, again, drawn, result, comparison);
    lemma_same_sorted(cleared, a.start, x.start);
    assert(x.start =~= x.start.cleared());
    lemma_passes_alike(
        x.start,
        a.uploads,
        a.last,
        a.end,
        drawn_before,
        x.last,
        x.end,
        comparison,
    );
    lemma_pass(x.start, drawn_before, x.last, x.end, comparison);
    lemma_stuck_again(x, cleared.queue, again, drawn, result, comparison);
}

/// After an attempt on a cleared cache got stuck, the second one gets stuck too, and
/// draws the same once more.
proof fn lemma_stuck_again(
    first: Attempt,
    queue: Seq<(usize, PositionedGlyph)>,
    after: CacheView,
    uploads: Seq<Upload>,
    result: Result<(), CacheWriteErr>,
    comparison: Comparison,
)
    requires
        first.start.wf(),
        first.start == first.start.cleared(),
        first.end == PassEnd::Stuck,
        is_definite(comparison),
        is_pass(first.start, first.uploads, first.last, first.end, comparison),
        caches_after_clearing(queue, first.last, after, uploads, result, comparison),
    ensures
        result == Err::<(), CacheWriteErr>(CacheWriteErr::NoRoomForWholeQueue),
        ({
            let drawn = first.last.uploads.skip(first.uploads.len() as int);
            uploads == first.uploads + drawn + drawn
        }),
{
    lemma_pass(first.start, first.uploads, first.last, first.end, comparison);
    let second = lemma_second_attempt(first, queue, after, uploads, result, comparison);
    assert(second.start =~= first.start);
    lemma_passes_alike(
        first.start,
        first.uploads,
        first.last,
        first.end,
        second.uploads,
        second.last,
        second.end,
        comparison,
    );
    lemma_pass(second.start, second.uploads, second.last, second.end, comparison);
    let from = first.uploads.len() as int;
    let drawn = first.last.uploads.skip(from);
    lemma_skip(uploads, first.last.uploads, from);
    assert(first.last.uploads =~= first.uploads + drawn) by {
        assert forall|i: int| 0 <= i < from implies first.last.uploads[i] == first.uploads[i] by {
            assert(first.last.uploads.take(from)[i] == first.last.uploads[i]);
        }
    }
    assert(uploads =~= uploads.take(first.last.uploads.len() as int) + uploads.skip(
        first.last.uploads.len() as int,
    ));
}

/// A queue is cached into a new or cleared cache in one attempt, the tallest glyphs
/// first, unless there is no room for it. Then the glyphs that fit have been drawn twice.
pub proof fn law_cleared_caches_are_filled_tallest_first(
    before: CacheView,
    uploads_before: Seq<Upload>,
    after: CacheView,
    uploads: Seq<Upload>,
    result: Result<(), CacheWriteErr>,
    comparison: Comparison,
)
    requires
        before.wf(),
        before == before.cleared(),
        is_definite(comparison),
        caches_queue(before, uploads_before, after, uploads, result, comparison),
    ensures
        exists|drawn: Seq<Upload>|
            #![trigger drawn_tallest_first(drawn, 0, drawn.len() as int)]
            {
                &&& drawn_tallest_first(drawn, 0, drawn.len() as int)
                &&& uploads == if result == Err::<(), CacheWriteErr>(
                    CacheWriteErr::NoRoomForWholeQueue,
                ) {
                    uploads_before + drawn + drawn
                } else {
                    uploads_before + drawn
                }
            },
{
    let a = lemma_first_attempt(before, uploads_before, after, uploads, result, comparison);
    assert(a.start =~= a.start.cleared());
    lemma_pass(a.start, a.uploads, a.last, a.end, comparison);
    let from = uploads_before.len() as int;
    let drawn = a.last.uploads.skip(from);
    assert(a.last.uploads =~= uploads_before + drawn) by {
        assert forall|i: int| 0 <= i < from implies a.last.uploads[i] == uploads_before[i] by {
            assert(a.last.uploads.take(from)[i] == a.last.uploads[i]);
        }
    }
    law_attempts_draw_tallest_first(a.start, a.uploads, a.last, a.end, comparison);
    assert forall|i: int, k: int| 0 <= i < k < drawn.len() implies upload_height(
        #[trigger] drawn[i],
    ) >= upload_height(#[trigger] drawn[k]) by {
        assert(drawn[i] == a.last.uploads[from + i]);
        assert(drawn[k] == a.last.uploads[from + k]);
    }
    if a.end == PassEnd::Stuck {
        lemma_stuck_again(a, before.queue, after, uploads, result, comparison);
    }
    assert(drawn_tallest_first(drawn, 0, drawn.len() as int));
}

} // verus!
