//! Which cached version of a glyph is read, and where it is to be drawn.

use crate::arithmetic::{Arithmetic, Comparison};
use crate::error::CacheReadErr;
use crate::geometry::Rect;
use crate::glyph::PositionedGlyph;
use crate::glyph_tree::{ascending, below, lemma_below, lemma_below_is, splits, TreeEntry};
use crate::laws::numbers::{
    closeness, has_finite_numbers, is_size, law_arithmetic_agrees, law_keys_are_distinct,
    law_order_is_lexicographic, Size,
};
use crate::laws::packing::{columns_of, lines_of};
use crate::laws::recognising::versions_of;
use crate::laws::showing::{are_apart, has_been_drawn, is_shown, shows};
use crate::laws::versions::{
    computes, distance_place, infinity, is_common_tolerance, is_part, lemma_distance_place,
    tells_apart, Part, Total,
};
use crate::model::CacheView;
use crate::nearness::{agrees, Near};
use crate::passes::lemma_tree;
use crate::reading::{
    downward, glyph_rect, is_answer, is_nearer, none_before, read_result, reads, search_ends,
    substitute, upward, DrawnBounds, TextureMatch,
};
use crate::row::font_glyph_key_spec;
use crate::scale_offset::GlyphScaleOffset;
use crate::single::Single;
use crate::upload::{is_last_there, lemma_last_sample_shows, painted, Upload};
use vstd::prelude::*;

verus! {

/// Whether the first `m` entries rank below a version, those up to `n` rank as it does,
/// and the others rank above it.
pub open spec fn stands_between(
    tree: Seq<TreeEntry>,
    target: GlyphScaleOffset,
    m: int,
    n: int,
) -> bool {
    let rank = target.rank_spec();
    &&& 0 <= m <= n <= tree.len()
    &&& forall|i: int| 0 <= i < m ==> (#[trigger] tree[i]).rank() < rank
    &&& forall|i: int| m <= i < n ==> (#[trigger] tree[i]).rank() == rank
    &&& forall|i: int| n <= i < tree.len() ==> (#[trigger] tree[i]).rank() > rank
}

/// How many entries on the same side are nearer to a version in the order.
pub open spec fn entries_between(m: int, n: int, i: int) -> int {
    if i < n {
        n - 1 - i
    } else {
        i - m
    }
}

/// Whether an entry is near enough to a version.
pub open spec fn is_near(
    cache: CacheView,
    near: Near,
    e: TreeEntry,
    target: GlyphScaleOffset,
) -> bool {
    near(e.spec, target, cache.scale_tolerance, cache.position_tolerance)
}

/// Whether a rectangle is a cell, or with padding what is left of it without the outermost
/// pixels.
pub open spec fn is_inside_of(cache: CacheView, inner: Rect<u32>, cell: Rect<u32>) -> bool {
    let padding: int = if cache.pad_glyphs {
        1
    } else {
        0
    };
    &&& inner.min.x == cell.min.x + padding
    &&& inner.min.y == cell.min.y + padding
    &&& inner.max.x == cell.max.x - padding
    &&& inner.max.y == cell.max.y - padding
}

/// Whether what is handed out are the pixels of an entry, to be drawn where the glyph
/// asked for is if the entry is of that very version, and otherwise where the version of
/// the entry would be.
pub open spec fn is_handed_out(
    cache: CacheView,
    found: TextureMatch,
    e: TreeEntry,
    target: GlyphScaleOffset,
    bb: Rect<i32>,
) -> bool {
    &&& is_inside_of(cache, found.tex_rect, cache.rows[e.row].glyphs[e.index as int].tex_coords)
    &&& found.bounds == if e.rank() == target.rank_spec() {
        DrawnBounds::Own(bb)
    } else {
        DrawnBounds::Substitute(e.spec)
    }
}

/// Whether an entry can be found to be no further from a version than another. Of two that
/// are equally far the one that ranks higher is preferred.
pub open spec fn can_be_preferred(
    cache: CacheView,
    comparison: Comparison,
    e: TreeEntry,
    other: TreeEntry,
    target: GlyphScaleOffset,
) -> bool {
    let (s, p) = (cache.scale_tolerance, cache.position_tolerance);
    exists|x: Single, y: Single|
        {
            &&& #[trigger] comparison.can_measure(e.spec, target, s, p, x)
            &&& #[trigger] comparison.can_measure(other.spec, target, s, p, y)
            &&& if e.rank() < other.rank() {
                x.less_than_spec(y)
            } else {
                !y.less_than_spec(x)
            }
        }
}

/// Where the entries split is where the version stands between them.
proof fn lemma_between(tree: Seq<TreeEntry>, target: GlyphScaleOffset, m: int, n: int)
    requires
        ascending(tree),
        stands_between(tree, target, m, n),
    ensures
        m == below(tree, target.rank_spec()),
        n == below(tree, target.rank_spec() + 1),
        n <= m + 1,
{
    let rank = target.rank_spec();
    assert(splits(tree, rank, m));
    assert(splits(tree, rank + 1, n));
    lemma_below_is(tree, rank, m);
    lemma_below_is(tree, rank + 1, n);
    if n > m + 1 {
        assert(tree[m].rank() < tree[m + 1].rank());
    }
}

/// Entries at the same place are the same.
proof fn lemma_same_place(cache: CacheView, key: u128, i: int, j: int)
    requires
        cache.wf(),
        0 <= i < cache.tree(key).len(),
        0 <= j < cache.tree(key).len(),
        cache.tree(key)[i].row == cache.tree(key)[j].row,
        cache.tree(key)[i].index == cache.tree(key)[j].index,
    ensures
        i == j,
{
    let tree = cache.tree(key);
    lemma_tree(cache, key);
    assert(tree.contains(tree[i]));
    assert(tree.contains(tree[j]));
    assert(cache.is_located(key, tree[i]));
    assert(cache.is_located(key, tree[j]));
    if i < j {
        assert(tree[i].rank() < tree[j].rank());
    } else if j < i {
        assert(tree[j].rank() < tree[i].rank());
    }
}

/// The pixels that are handed out for an entry are those inside its cell.
proof fn lemma_inside(cache: CacheView, key: u128, i: int)
    requires
        cache.wf(),
        0 <= i < cache.tree(key).len(),
    ensures
        is_inside_of(
            cache,
            glyph_rect(cache, cache.tree(key)[i]),
            cache.rows[cache.tree(key)[i].row].glyphs[cache.tree(key)[i].index as int].tex_coords,
        ),
{
    let e = cache.tree(key)[i];
    lemma_tree(cache, key);
    assert(cache.tree(key).contains(e));
    assert(cache.is_located(key, e));
    assert(cache.row_wf(e.row));
    assert(cache.cell_wf(e.row, cache.rows[e.row].glyphs[e.index as int].tex_coords));
}

/// No entry that is near enough has fewer others between it and the version than the
/// search has gone steps.
proof fn lemma_nothing_nearer(
    cache: CacheView,
    tree: Seq<TreeEntry>,
    target: GlyphScaleOffset,
    comparison: Comparison,
    near: Near,
    steps: int,
    m: int,
    n: int,
)
    requires
        ascending(tree),
        stands_between(tree, target, m, n),
        agrees(comparison, near),
        none_before(cache, tree, target, comparison, steps),
    ensures
        forall|j: int|
            0 <= j < tree.len() && is_near(cache, near, #[trigger] tree[j], target) ==> steps
                <= entries_between(m, n, j),
{
    lemma_between(tree, target, m, n);
    assert forall|j: int|
        0 <= j < tree.len() && is_near(cache, near, #[trigger] tree[j], target) implies steps
        <= entries_between(m, n, j) by {
        let step = entries_between(m, n, j);
        if step < steps {
            if j < n {
                assert(downward(tree, target, step) == Some(tree[j]));
            } else {
                assert(upward(tree, target, step) == Some(tree[j]));
            }
            assert(is_answer(cache, Some(tree[j]), target, comparison, false));
        }
    }
}

/// Of the cached versions of a glyph that are near enough, the one with the fewest others
/// between it and the glyph is read. Where there is one on either side, the nearer of the
/// two is. Its pixels are handed out, and with them the version at which they were drawn
/// if it is not that of the glyph.
pub proof fn law_closest_version_is_read(
    cache: CacheView,
    queued: (usize, PositionedGlyph),
    comparison: Comparison,
    near: Near,
    found: TextureMatch,
    m: int,
    n: int,
) -> (i: int)
    requires
        cache.wf(),
        queued.1.bounding_box is Some,
        agrees(comparison, near),
        reads(cache, queued.0, queued.1, comparison, Ok(Some(found))),
        stands_between(versions_of(cache, queued), queued.1.spec(), m, n),
    ensures
        0 <= i < versions_of(cache, queued).len(),
        ({
            let tree = versions_of(cache, queued);
            let target = queued.1.spec();
            &&& is_near(cache, near, tree[i], target)
            &&& is_handed_out(cache, found, tree[i], target, queued.1.bounding_box->0)
            &&& forall|j: int|
                0 <= j < tree.len() && is_near(cache, near, #[trigger] tree[j], target)
                    ==> entries_between(m, n, i) <= entries_between(m, n, j)
            &&& forall|j: int|
                0 <= j < tree.len() && j != i && is_near(cache, near, #[trigger] tree[j], target)
                    && entries_between(m, n, i) == entries_between(m, n, j) ==> can_be_preferred(
                    cache,
                    comparison,
                    tree[i],
                    tree[j],
                    target,
                )
        }),
{
    let key = font_glyph_key_spec((queued.0, queued.1.id));
    let tree = cache.tree(key);
    let target = queued.1.spec();
    let bb = queued.1.bounding_box->0;
    let result: Result<Option<TextureMatch>, CacheReadErr> = Ok(Some(found));
    lemma_tree(cache, key);
    lemma_between(tree, target, m, n);
    let (steps, lower, upper) = choose|
        steps: int,
        lower: Option<TreeEntry>,
        upper: Option<TreeEntry>,
    | #[trigger]
        search_ends(cache, tree, target, comparison, steps, lower, upper) && read_result(
            cache,
            lower,
            upper,
            target,
            bb,
            comparison,
            result,
        );
    let (down, up) = (n - 1 - steps, m + steps);
    if lower is Some {
        assert(lower == downward(tree, target, steps));
        assert(is_near(cache, near, tree[down], target));
    }
    if upper is Some {
        assert(upper == upward(tree, target, steps));
        assert(is_near(cache, near, tree[up], target));
    }
    if lower is Some && upper is Some {
        if lower->0.row == upper->0.row && lower->0.index == upper->0.index {
            lemma_same_place(cache, key, down, up);
        }
    }
    lemma_nothing_nearer(cache, tree, target, comparison, near, steps, m, n);
    if lower is None && upper is Some && down == up {
        assert(is_answer(cache, downward(tree, target, steps), target, comparison, false));
    }
    if upper is None && lower is Some && down == up {
        assert(is_answer(cache, upward(tree, target, steps), target, comparison, false));
    }
    let i = if lower is None {
        up
    } else if upper is None || down == up {
        down
    } else {
        let e = choose|e: TreeEntry| #[trigger]
            is_nearer(cache, tree[down], tree[up], target, comparison, e) && result == Ok::<
                _,
                CacheReadErr,
            >(Some(substitute(cache, e)));
        if e == tree[down] {
            assert(can_be_preferred(cache, comparison, tree[down], tree[up], target));
            down
        } else {
            assert(can_be_preferred(cache, comparison, tree[up], tree[down], target));
            up
        }
    };
    lemma_inside(cache, key, i);
    assert forall|j: int|
        0 <= j < tree.len() && j != i && is_near(cache, near, #[trigger] tree[j], target)
            && entries_between(m, n, i) == entries_between(m, n, j) implies can_be_preferred(
        cache,
        comparison,
        tree[i],
        tree[j],
        target,
    ) by {
        assert(j == down || j == up);
    }
    i
}

/// A glyph with a shape is not read only if no cached version of it is near enough.
pub proof fn law_unread_glyphs_have_no_near_version(
    cache: CacheView,
    queued: (usize, PositionedGlyph),
    comparison: Comparison,
    near: Near,
    error: CacheReadErr,
    e: TreeEntry,
)
    requires
        cache.wf(),
        agrees(comparison, near),
        reads(cache, queued.0, queued.1, comparison, Err(error)),
        versions_of(cache, queued).contains(e),
    ensures
        queued.1.bounding_box is Some,
        !is_near(cache, near, e, queued.1.spec()),
{
    let key = font_glyph_key_spec((queued.0, queued.1.id));
    let tree = cache.tree(key);
    let target = queued.1.spec();
    let rank = target.rank_spec();
    let result: Result<Option<TextureMatch>, CacheReadErr> = Err(error);
    lemma_tree(cache, key);
    lemma_below(tree, rank);
    lemma_below(tree, rank + 1);
    let bb = queued.1.bounding_box->0;
    let (steps, lower, upper) = choose|
        steps: int,
        lower: Option<TreeEntry>,
        upper: Option<TreeEntry>,
    | #[trigger]
        search_ends(cache, tree, target, comparison, steps, lower, upper) && read_result(
            cache,
            lower,
            upper,
            target,
            bb,
            comparison,
            result,
        );
    let (m, n) = (below(tree, rank), below(tree, rank + 1));
    let j = choose|j: int| 0 <= j < tree.len() && tree[j] == e;
    let step = if j < n {
        n - 1 - j
    } else {
        j - m
    };
    if j < n {
        assert(downward(tree, target, step) == Some(e));
    } else {
        assert(upward(tree, target, step) == Some(e));
    }
    if step < steps {
        assert(is_answer(cache, Some(e), target, comparison, false));
    }
}

/// With arithmetic that subtracts, divides and adds, the version that is read is no
/// further from the glyph than any other near one with as few between: the distance is the
/// sum of the differences of both scales and both offsets, each over its tolerance.
pub proof fn law_read_version_is_no_further<S, Q, A>(
    cache: CacheView,
    queued: (usize, PositionedGlyph),
    arithmetic: Arithmetic<S, Q, A>,
    size: Size,
    part: Part,
    total: Total,
    found: TextureMatch,
    m: int,
    n: int,
) -> (i: int)
    where
    S: Fn(Single, Single) -> Single,
    Q: Fn(Single, Single) -> Single,
    A: Fn(Single, Single) -> Single,

    requires
        cache.wf(),
        queued.1.bounding_box is Some,
        computes(arithmetic, size, part, total),
        is_common_tolerance(cache.scale_tolerance),
        is_common_tolerance(cache.position_tolerance),
        reads(cache, queued.0, queued.1, arithmetic.comparison(), Ok(Some(found))),
        stands_between(versions_of(cache, queued), queued.1.spec(), m, n),
    ensures
        0 <= i < versions_of(cache, queued).len(),
        ({
            let tree = versions_of(cache, queued);
            let target = queued.1.spec();
            let (s, p) = (cache.scale_tolerance, cache.position_tolerance);
            &&& is_near(cache, closeness(size), tree[i], target)
            &&& is_handed_out(cache, found, tree[i], target, queued.1.bounding_box->0)
            &&& forall|j: int|
                0 <= j < tree.len() && is_near(
                    cache,
                    closeness(size),
                    #[trigger] tree[j],
                    target,
                ) && entries_between(m, n, i) == entries_between(m, n, j) ==> distance_place(
                    tree[i].spec,
                    target,
                    s,
                    p,
                    size,
                    part,
                    total,
                ) <= distance_place(tree[j].spec, target, s, p, size, part, total)
        }),
{
    let tree = versions_of(cache, queued);
    let target = queued.1.spec();
    let (s, p) = (cache.scale_tolerance, cache.position_tolerance);
    let comparison = arithmetic.comparison();
    let near = closeness(size);
    law_arithmetic_agrees(arithmetic, size);
    let i = law_closest_version_is_read(cache, queued, comparison, near, found, m, n);
    assert forall|j: int|
        0 <= j < tree.len() && is_near(cache, near, #[trigger] tree[j], target) && entries_between(
            m,
            n,
            i,
        ) == entries_between(m, n, j) implies distance_place(
        tree[i].spec,
        target,
        s,
        p,
        size,
        part,
        total,
    ) <= distance_place(tree[j].spec, target, s, p, size, part, total) by {
        if j != i {
            assert(can_be_preferred(cache, comparison, tree[i], tree[j], target));
            let (x, y) = choose|x: Single, y: Single|
                {
                    &&& #[trigger] comparison.can_measure(tree[i].spec, target, s, p, x)
                    &&& #[trigger] comparison.can_measure(tree[j].spec, target, s, p, y)
                    &&& if tree[i].rank() < tree[j].rank() {
                        x.less_than_spec(y)
                    } else {
                        !y.less_than_spec(x)
                    }
                };
            lemma_close_is_finite(tree[i].spec, target, s, p, size);
            lemma_close_is_finite(tree[j].spec, target, s, p, size);
            lemma_distance_place(tree[i].spec, target, s, p, arithmetic, size, part, total, x);
            lemma_distance_place(tree[j].spec, target, s, p, arithmetic, size, part, total, y);
        }
    }
    i
}

/// Versions that are close have finite numbers.
proof fn lemma_close_is_finite(
    a: GlyphScaleOffset,
    b: GlyphScaleOffset,
    s: Single,
    p: Single,
    size: Size,
)
    requires
        is_size(size),
        closeness(size)(a, b, s, p),
    ensures
        has_finite_numbers(a),
        has_finite_numbers(b),
{
    assert(size(a.scale.0, b.scale.0) < 0x7f80_0000);
    assert(size(a.scale.1, b.scale.1) < 0x7f80_0000);
    assert(size(a.offset.0, b.offset.0) < 0x7f80_0000);
    assert(size(a.offset.1, b.offset.1) < 0x7f80_0000);
}

/// Whether a version differs from another in its horizontal offset at most.
pub open spec fn differs_sideways(a: GlyphScaleOffset, b: GlyphScaleOffset) -> bool {
    &&& a.scale.0.ordinal_spec() == b.scale.0.ordinal_spec()
    &&& a.scale.1.ordinal_spec() == b.scale.1.ordinal_spec()
    &&& a.offset.1.ordinal_spec() == b.offset.1.ordinal_spec()
}

/// Whether a version differs from another in its vertical offset at most.
pub open spec fn differs_upward(a: GlyphScaleOffset, b: GlyphScaleOffset) -> bool {
    &&& a.scale.0.ordinal_spec() == b.scale.0.ordinal_spec()
    &&& a.scale.1.ordinal_spec() == b.scale.1.ordinal_spec()
    &&& a.offset.0.ordinal_spec() == b.offset.0.ordinal_spec()
}

/// Whether adding nothing changes nothing.
pub open spec fn keeps_what_it_adds_nothing_to(total: Total) -> bool {
    &&& forall|k: int| 0 <= k <= infinity() ==> #[trigger] total(k, 0) == k
    &&& forall|k: int| 0 <= k <= infinity() ==> #[trigger] total(0, k) == k
}

/// Of two near versions with as few between, both of the scale of the glyph and different
/// from it in the same one coordinate of the offset, the one that is read has no larger
/// difference, in tolerances.
pub proof fn law_nearer_offset_is_read<S, Q, A>(
    cache: CacheView,
    queued: (usize, PositionedGlyph),
    arithmetic: Arithmetic<S, Q, A>,
    size: Size,
    part: Part,
    total: Total,
    found: TextureMatch,
    m: int,
    n: int,
) -> (i: int)
    where
    S: Fn(Single, Single) -> Single,
    Q: Fn(Single, Single) -> Single,
    A: Fn(Single, Single) -> Single,

    requires
        cache.wf(),
        queued.1.bounding_box is Some,
        computes(arithmetic, size, part, total),
        keeps_what_it_adds_nothing_to(total),
        is_common_tolerance(cache.scale_tolerance),
        is_common_tolerance(cache.position_tolerance),
        reads(cache, queued.0, queued.1, arithmetic.comparison(), Ok(Some(found))),
        stands_between(versions_of(cache, queued), queued.1.spec(), m, n),
    ensures
        0 <= i < versions_of(cache, queued).len(),
        ({
            let tree = versions_of(cache, queued);
            let target = queued.1.spec();
            let p = cache.position_tolerance;
            &&& is_handed_out(cache, found, tree[i], target, queued.1.bounding_box->0)
            &&& forall|j: int|
                0 <= j < tree.len() && is_near(
                    cache,
                    closeness(size),
                    #[trigger] tree[j],
                    target,
                ) && entries_between(m, n, i) == entries_between(m, n, j) ==> {
                    let (a, b) = (tree[i].spec, tree[j].spec);
                    &&& differs_sideways(a, target) && differs_sideways(b, target) ==> part(
                        size(a.offset.0, target.offset.0),
                        p,
                    ) <= part(size(b.offset.0, target.offset.0), p)
                    &&& differs_upward(a, target) && differs_upward(b, target) ==> part(
                        size(a.offset.1, target.offset.1),
                        p,
                    ) <= part(size(b.offset.1, target.offset.1), p)
                }
        }),
{
    let tree = versions_of(cache, queued);
    let target = queued.1.spec();
    let (s, p) = (cache.scale_tolerance, cache.position_tolerance);
    let i = law_read_version_is_no_further(
        cache,
        queued,
        arithmetic,
        size,
        part,
        total,
        found,
        m,
        n,
    );
    assert forall|j: int|
        0 <= j < tree.len() && is_near(
            cache,
            closeness(size),
            #[trigger] tree[j],
            target,
        ) && entries_between(m, n, i) == entries_between(m, n, j) implies {
        let (a, b) = (tree[i].spec, tree[j].spec);
        &&& differs_sideways(a, target) && differs_sideways(b, target) ==> part(
            size(a.offset.0, target.offset.0),
            p,
        ) <= part(size(b.offset.0, target.offset.0), p)
        &&& differs_upward(a, target) && differs_upward(b, target) ==> part(
            size(a.offset.1, target.offset.1),
            p,
        ) <= part(size(b.offset.1, target.offset.1), p)
    } by {
        lemma_one_difference(tree[i].spec, target, s, p, size, part, total);
        lemma_one_difference(tree[j].spec, target, s, p, size, part, total);
    }
    i
}

/// The distance between versions that differ in one coordinate of the offset is that of
/// the coordinate.
proof fn lemma_one_difference(
    a: GlyphScaleOffset,
    b: GlyphScaleOffset,
    s: Single,
    p: Single,
    size: Size,
    part: Part,
    total: Total,
)
    requires
        is_size(size),
        tells_apart(size),
        is_part(part),
        keeps_what_it_adds_nothing_to(total),
        is_common_tolerance(s),
        is_common_tolerance(p),
        closeness(size)(a, b, s, p),
    ensures
        differs_sideways(a, b) ==> distance_place(a, b, s, p, size, part, total) == part(
            size(a.offset.0, b.offset.0),
            p,
        ),
        differs_upward(a, b) ==> distance_place(a, b, s, p, size, part, total) == part(
            size(a.offset.1, b.offset.1),
            p,
        ),
{
    lemma_close_is_finite(a, b, s, p, size);
    assert(part(0, s) == 0);
    assert(part(0, p) == 0);
    assert(0 <= size(a.offset.0, b.offset.0) <= infinity());
    assert(0 <= size(a.offset.1, b.offset.1) <= infinity());
    assert(0 <= part(size(a.offset.0, b.offset.0), p) <= infinity());
    assert(0 <= part(size(a.offset.1, b.offset.1), p) <= infinity());
    assert(total(0, 0) == 0);
    if differs_sideways(a, b) || differs_upward(a, b) {
        assert(size(a.scale.0, b.scale.0) == 0);
        assert(size(a.scale.1, b.scale.1) == 0);
    }
    if differs_sideways(a, b) {
        assert(size(a.offset.1, b.offset.1) == 0);
    }
    if differs_upward(a, b) {
        assert(size(a.offset.0, b.offset.0) == 0);
    }
}

/// Whether an upload is what the texture shows in these pixels: it filled their cell, and
/// no later one touched it.
pub open spec fn is_upload_shown(
    cache: CacheView,
    history: Seq<Upload>,
    pixels: Rect<u32>,
    k: int,
) -> bool {
    &&& 0 <= k < history.len()
    &&& is_inside_of(cache, pixels, history[k].rect)
    &&& forall|j: int|
        k < j < history.len() ==> are_apart((#[trigger] history[j]).rect, history[k].rect)
}

/// Whether a glyph is of this scale and offset.
pub open spec fn has_numbers(
    glyph: PositionedGlyph,
    scale: (Single, Single),
    offset: (Single, Single),
) -> bool {
    &&& glyph.scale.0.ordinal_spec() == scale.0.ordinal_spec()
    &&& glyph.scale.1.ordinal_spec() == scale.1.ordinal_spec()
    &&& glyph.offset.0.ordinal_spec() == offset.0.ordinal_spec()
    &&& glyph.offset.1.ordinal_spec() == offset.1.ordinal_spec()
}

/// The version of a glyph is that of its own scale and offset.
pub proof fn law_versions_are_scales_and_offsets(glyph: PositionedGlyph)
    ensures
        glyph.spec().scale == glyph.scale,
        glyph.spec().offset == glyph.offset,
{
}

/// A glyph can be cached if it has no shape, or if the sides of its bounding box are not
/// negative and not too long to be counted.
pub proof fn law_boxes_can_be_cached(glyph: PositionedGlyph)
    ensures
        glyph.is_drawable() <==> (glyph.bounding_box matches Some(bb) ==> {
            &&& bb.min.x <= bb.max.x
            &&& bb.min.y <= bb.max.y
            &&& bb.max.x - bb.min.x < 0x8000_0000
            &&& bb.max.y - bb.min.y < 0x8000_0000
        }),
{
}

/// The pixels that are read for a glyph show an upload of it. If they are to be drawn in
/// its own bounding box, that upload was of its very scale and offset. Otherwise the scale
/// and offset at which they are to be drawn are those of the upload, and near enough.
pub proof fn law_what_is_read_tells_what_is_shown(
    cache: CacheView,
    history: Seq<Upload>,
    queued: (usize, PositionedGlyph),
    comparison: Comparison,
    near: Near,
    found: TextureMatch,
) -> (k: int)
    requires
        cache.wf(),
        shows(history, cache),
        queued.1.bounding_box is Some,
        agrees(comparison, near),
        reads(cache, queued.0, queued.1, comparison, Ok(Some(found))),
    ensures
        is_upload_shown(cache, history, found.tex_rect, k),
        history[k].font_id == queued.0,
        history[k].glyph.id == queued.1.id,
        match found.bounds {
            DrawnBounds::Own(bb) => {
                &&& Some(bb) == queued.1.bounding_box
                &&& has_numbers(history[k].glyph, queued.1.scale, queued.1.offset)
            },
            DrawnBounds::Substitute(version) => {
                &&& has_numbers(history[k].glyph, version.scale, version.offset)
                &&& !has_numbers(queued.1, version.scale, version.offset)
                &&& near(
                    version,
                    queued.1.spec(),
                    cache.scale_tolerance,
                    cache.position_tolerance,
                )
            },
        },
{
    let key = font_glyph_key_spec((queued.0, queued.1.id));
    let tree = versions_of(cache, queued);
    let target = queued.1.spec();
    lemma_tree(cache, key);
    lemma_below(tree, target.rank_spec());
    lemma_below(tree, target.rank_spec() + 1);
    let (m, n) = (below(tree, target.rank_spec()), below(tree, target.rank_spec() + 1));
    if m > n {
        assert(tree[n].rank() < target.rank_spec());
    }
    assert(stands_between(tree, target, m, n));
    let i = law_closest_version_is_read(cache, queued, comparison, near, found, m, n);
    let e = tree[i];
    assert(tree.contains(e));
    assert(cache.is_located(key, e));
    let info = cache.rows[e.row].glyphs[e.index as int];
    assert(has_been_drawn(history, info));
    let k = choose|k: int| #[trigger] is_shown(history, info, k);
    law_keys_are_distinct(info.font_glyph, (queued.0, queued.1.id));
    law_order_is_lexicographic(history[k].glyph.spec(), e.spec);
    law_order_is_lexicographic(e.spec, target);
    k
}

/// What a glyph is drawn with stands where the glyph is read: a sample after which none
/// falls on its pixel is found in its own column and row of the pixels that are handed
/// out.
pub proof fn law_samples_stand_where_they_are_read(
    cache: CacheView,
    u: Upload,
    pixels: Rect<u32>,
    samples: Seq<(u32, u32, u8)>,
    i: int,
)
    requires
        is_inside_of(cache, pixels, u.rect),
        0 <= i < samples.len(),
        is_last_there(samples, i),
    ensures
        ({
            let (x, y, v) = samples[i];
            painted(
                samples,
                cache.pad_glyphs,
                pixels.min.y + y - u.rect.min.y,
                pixels.min.x + x - u.rect.min.x,
            ) == v
        }),
{
    lemma_last_sample_shows(samples, cache.pad_glyphs, i);
}

/// Of an upload that is as large as its glyph takes, as many pixels are handed out as the
/// bounding box of the glyph has.
pub proof fn law_as_many_pixels_are_read_as_the_box_has(
    cache: CacheView,
    u: Upload,
    pixels: Rect<u32>,
)
    requires
        is_inside_of(cache, pixels, u.rect),
        u.glyph.bounding_box is Some,
        u.rect.max.x - u.rect.min.x == columns_of(cache, u.glyph),
        u.rect.max.y - u.rect.min.y == lines_of(cache, u.glyph),
    ensures
        ({
            let bb = u.glyph.bounding_box->0;
            &&& pixels.max.x - pixels.min.x == bb.max.x - bb.min.x
            &&& pixels.max.y - pixels.min.y == bb.max.y - bb.min.y
        }),
{
}

} // verus!
