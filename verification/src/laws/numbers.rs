//! What holds of scales, offsets and the numbers made of them.

use crate::arithmetic::Arithmetic;
use crate::glyph::GlyphId;
use crate::model::is_tolerance;
use crate::nearness::{agrees, is_nearness, knows_itself, Near};
use crate::row::font_glyph_key_spec;
use crate::scale_offset::{Differences, GlyphScaleOffset};
use crate::single::{SMALLEST_TOLERANCE, Single};
use crate::upload::painted;
use vstd::prelude::*;

verus! {

/// No two glyphs of two fonts have the same number.
pub proof fn law_keys_are_distinct(a: (usize, GlyphId), b: (usize, GlyphId))
    ensures
        font_glyph_key_spec(a) == font_glyph_key_spec(b) ==> a == b,
{
}

/// Versions of a glyph are in the order of their horizontal scales. Where those are
/// the same the vertical scales decide, then the horizontal offsets, then the vertical
/// ones.
pub proof fn law_order_is_lexicographic(a: GlyphScaleOffset, b: GlyphScaleOffset)
    ensures
        a.rank_spec() < b.rank_spec() <==> {
            let (a0, a1) = (a.scale.0.ordinal_spec(), a.scale.1.ordinal_spec());
            let (a2, a3) = (a.offset.0.ordinal_spec(), a.offset.1.ordinal_spec());
            let (b0, b1) = (b.scale.0.ordinal_spec(), b.scale.1.ordinal_spec());
            let (b2, b3) = (b.offset.0.ordinal_spec(), b.offset.1.ordinal_spec());
            ||| a0 < b0
            ||| a0 == b0 && a1 < b1
            ||| a0 == b0 && a1 == b1 && a2 < b2
            ||| a0 == b0 && a1 == b1 && a2 == b2 && a3 < b3
        },
        a.rank_spec() == b.rank_spec() <==> {
            &&& a.scale.0.ordinal_spec() == b.scale.0.ordinal_spec()
            &&& a.scale.1.ordinal_spec() == b.scale.1.ordinal_spec()
            &&& a.offset.0.ordinal_spec() == b.offset.0.ordinal_spec()
            &&& a.offset.1.ordinal_spec() == b.offset.1.ordinal_spec()
        },
{
}

/// The larger of the smallest tolerance and any positive number is a tolerance that a
/// cache works with.
pub proof fn law_tolerances_are_positive(tolerance: Single)
    requires
        tolerance.is_positive_spec(),
    ensures
        is_tolerance(tolerance.max_spec(Single { bits: SMALLEST_TOLERANCE })),
{
}

/// The place, in the order of singles, of the size of a difference.
pub type Size = spec_fn(Single, Single) -> int;

/// Whether the differences that a function gives are of these sizes.
pub open spec fn measures<S>(difference: S, size: Size) -> bool where
    S: Fn(Single, Single) -> Single,
 {
    forall|a: Single, b: Single, d: Single| #[trigger]
        call_ensures(difference, (a, b), d) ==> d.abs_spec().ordinal_spec() == size(a, b)
}

/// Whether all numbers of a version of a glyph are finite.
pub open spec fn has_finite_numbers(a: GlyphScaleOffset) -> bool {
    &&& a.scale.0.is_finite_spec()
    &&& a.scale.1.is_finite_spec()
    &&& a.offset.0.is_finite_spec()
    &&& a.offset.1.is_finite_spec()
}

/// What subtraction makes sure of: the size of a difference is the same both ways, it
/// is zero between equal finite numbers, and it is finite only between finite numbers.
pub open spec fn is_size(size: Size) -> bool {
    &&& forall|a: Single, b: Single| #[trigger] size(a, b) == size(b, a)
    &&& forall|a: Single, b: Single|
        a.is_finite_spec() && a.ordinal_spec() == b.ordinal_spec() ==> #[trigger] size(a, b) == 0
    &&& forall|a: Single, b: Single| #[trigger]
        size(a, b) < 0x7f80_0000 ==> a.is_finite_spec() && b.is_finite_spec()
}

/// Whether a size is finite and not above a tolerance.
pub open spec fn is_at_most(size: int, tolerance: Single) -> bool {
    &&& size < 0x7f80_0000
    &&& !tolerance.is_nan_spec()
    &&& size <= tolerance.ordinal_spec()
}

/// The relation between versions of a glyph whose numbers differ by no more than the
/// tolerances.
pub open spec fn closeness(size: Size) -> Near {
    |a: GlyphScaleOffset, b: GlyphScaleOffset, s: Single, p: Single|
        {
            &&& is_at_most(size(a.scale.0, b.scale.0), s)
            &&& is_at_most(size(a.scale.1, b.scale.1), s)
            &&& is_at_most(size(a.offset.0, b.offset.0), p)
            &&& is_at_most(size(a.offset.1, b.offset.1), p)
        }
}

/// Two versions of a glyph match if their numbers differ by no more than the tolerances,
/// and only then.
pub proof fn law_matches_are_close<S>(
    a: GlyphScaleOffset,
    b: GlyphScaleOffset,
    s: Single,
    p: Single,
    difference: S,
    size: Size,
    d: Differences,
)
    where S: Fn(Single, Single) -> Single
    requires
        measures(difference, size),
        d.are_between(a, b, difference),
    ensures
        d.are_within(s, p) == closeness(size)(a, b, s, p),
{
    lemma_size_within(d.scale.0, s);
    lemma_size_within(d.scale.1, s);
    lemma_size_within(d.offset.0, p);
    lemma_size_within(d.offset.1, p);
}

/// What arithmetic with differences of these sizes says of what matches what is
/// closeness.
pub proof fn law_arithmetic_agrees<S, Q, A>(arithmetic: Arithmetic<S, Q, A>, size: Size)
    where
    S: Fn(Single, Single) -> Single,
    Q: Fn(Single, Single) -> Single,
    A: Fn(Single, Single) -> Single,

    requires
        measures(arithmetic.difference, size),
    ensures
        agrees(arithmetic.comparison(), closeness(size)),
{
    let near = closeness(size);
    let difference = arithmetic.difference;
    assert forall|
        a: GlyphScaleOffset,
        b: GlyphScaleOffset,
        s: Single,
        p: Single,
        answer: bool,
    | #[trigger] arithmetic.comparison().can_match(a, b, s, p, answer) implies answer == near(
        a,
        b,
        s,
        p,
    ) by {
        let d = choose|d: Differences| #[trigger]
            d.are_between(a, b, difference) && answer == d.are_within(s, p);
        law_matches_are_close(a, b, s, p, difference, size, d);
    }
}

/// Whether the size of a number is within a tolerance can be told from its place.
proof fn lemma_size_within(number: Single, tolerance: Single)
    ensures
        number.is_within_spec(tolerance) == is_at_most(
            number.abs_spec().ordinal_spec(),
            tolerance,
        ),
{
}

/// If differences are those of subtraction, closeness is symmetric, versions of a glyph
/// with finite numbers are close to themselves, and whatever is close to anything is
/// close to itself.
pub proof fn law_closeness_is_nearness(size: Size)
    requires
        is_size(size),
    ensures
        is_nearness(closeness(size)),
        forall|a: GlyphScaleOffset|
            has_finite_numbers(a) ==> knows_itself(closeness(size), #[trigger] a.rank_spec()),
{
    let near = closeness(size);
    assert forall|a: GlyphScaleOffset|
        has_finite_numbers(a) implies knows_itself(near, #[trigger] a.rank_spec()) by {
        lemma_finite_is_close_to_itself(size, a);
    }
    assert forall|a: GlyphScaleOffset, b: GlyphScaleOffset, s: Single, p: Single|
        is_tolerance(s) && is_tolerance(p) && #[trigger] near(a, b, s, p) implies near(b, a, s, p)
        && knows_itself(near, a.rank_spec()) && knows_itself(near, b.rank_spec()) by {
        assert(size(a.scale.0, b.scale.0) == size(b.scale.0, a.scale.0));
        assert(size(a.scale.1, b.scale.1) == size(b.scale.1, a.scale.1));
        assert(size(a.offset.0, b.offset.0) == size(b.offset.0, a.offset.0));
        assert(size(a.offset.1, b.offset.1) == size(b.offset.1, a.offset.1));
        lemma_finite_is_close_to_itself(size, a);
        lemma_finite_is_close_to_itself(size, b);
    }
}

/// A version of a glyph with finite numbers is close to all of its rank.
proof fn lemma_finite_is_close_to_itself(size: Size, a: GlyphScaleOffset)
    requires
        is_size(size),
        has_finite_numbers(a),
    ensures
        knows_itself(closeness(size), a.rank_spec()),
{
    let near = closeness(size);
    assert forall|b: GlyphScaleOffset, c: GlyphScaleOffset, s: Single, p: Single|
        b.rank_spec() == a.rank_spec() && c.rank_spec() == a.rank_spec() && is_tolerance(s)
            && is_tolerance(p) implies #[trigger] near(b, c, s, p) by {
        law_order_is_lexicographic(a, b);
        law_order_is_lexicographic(b, c);
        assert(size(b.scale.0, c.scale.0) == 0);
        assert(size(b.scale.1, c.scale.1) == 0);
        assert(size(b.offset.0, c.offset.0) == 0);
        assert(size(b.offset.1, c.offset.1) == 0);
    }
}

/// The padding of a glyph is blank, as long as no sample falls outside its bounding
/// box.
pub proof fn law_padding_is_blank(
    samples: Seq<(u32, u32, u8)>,
    rows: int,
    cols: int,
    row: int,
    col: int,
)
    requires
        forall|i: int|
            0 <= i < samples.len() ==> (#[trigger] samples[i]).0 + 2 < cols && samples[i].1 + 2
                < rows,
        row <= 0 || row >= rows - 1 || col <= 0 || col >= cols - 1,
    ensures
        painted(samples, true, row, col) == 0,
    decreases samples.len(),
{
    if samples.len() > 0 {
        assert(samples[samples.len() - 1] == samples.last());
        assert forall|i: int| 0 <= i < samples.drop_last().len() implies (
        #[trigger] samples.drop_last()[i]).0 + 2 < cols && samples.drop_last()[i].1 + 2
            < rows by {
            assert(samples.drop_last()[i] == samples[i]);
        }
        law_padding_is_blank(samples.drop_last(), rows, cols, row, col);
    }
}

} // verus!
