//! What holds of comparing versions of a glyph.
//!
//! The operations on numbers are given to the library, so each law names the facts of
//! single-precision arithmetic that it rests on.

use crate::arithmetic::Arithmetic;
use crate::laws::numbers::{
    closeness, has_finite_numbers, is_size, law_matches_are_close, law_order_is_lexicographic,
    measures, Size,
};
use crate::scale_offset::{is_normalised, Differences, GlyphScaleOffset};
use crate::single::{HALF, ONE, SMALLEST_TOLERANCE, Single};
use vstd::prelude::*;

verus! {

// Matching.

/// A version of a glyph with finite numbers matches itself, at any positive tolerances.
pub proof fn law_matches_is_reflexive<S>(
    a: GlyphScaleOffset,
    s: Single,
    p: Single,
    difference: S,
    size: Size,
    d: Differences,
)
    where S: Fn(Single, Single) -> Single
    requires
        measures(difference, size),
        is_size(size),
        has_finite_numbers(a),
        s.is_positive_spec(),
        p.is_positive_spec(),
        d.are_between(a, a, difference),
    ensures
        d.are_within(s, p),
{
    law_matches_are_close(a, a, s, p, difference, size, d);
    assert(size(a.scale.0, a.scale.0) == 0);
    assert(size(a.scale.1, a.scale.1) == 0);
    assert(size(a.offset.0, a.offset.0) == 0);
    assert(size(a.offset.1, a.offset.1) == 0);
}

/// A version matches another if that one matches it.
pub proof fn law_matches_is_symmetric<S>(
    a: GlyphScaleOffset,
    b: GlyphScaleOffset,
    s: Single,
    p: Single,
    difference: S,
    size: Size,
    d: Differences,
    back: Differences,
)
    where S: Fn(Single, Single) -> Single
    requires
        measures(difference, size),
        is_size(size),
        d.are_between(a, b, difference),
        back.are_between(b, a, difference),
    ensures
        d.are_within(s, p) == back.are_within(s, p),
{
    law_matches_are_close(a, b, s, p, difference, size, d);
    law_matches_are_close(b, a, s, p, difference, size, back);
    lemma_sizes_are_symmetric(a, b, size);
}

/// The four sizes between two versions are the same both ways.
proof fn lemma_sizes_are_symmetric(a: GlyphScaleOffset, b: GlyphScaleOffset, size: Size)
    requires
        is_size(size),
    ensures
        size(a.scale.0, b.scale.0) == size(b.scale.0, a.scale.0),
        size(a.scale.1, b.scale.1) == size(b.scale.1, a.scale.1),
        size(a.offset.0, b.offset.0) == size(b.offset.0, a.offset.0),
        size(a.offset.1, b.offset.1) == size(b.offset.1, a.offset.1),
{
}

/// What matches at some tolerances matches at larger ones.
pub proof fn law_matches_is_monotone<S>(
    a: GlyphScaleOffset,
    b: GlyphScaleOffset,
    s: Single,
    p: Single,
    larger_s: Single,
    larger_p: Single,
    difference: S,
    size: Size,
    d: Differences,
    again: Differences,
)
    where S: Fn(Single, Single) -> Single
    requires
        measures(difference, size),
        !larger_s.is_nan_spec(),
        !larger_p.is_nan_spec(),
        s.ordinal_spec() <= larger_s.ordinal_spec(),
        p.ordinal_spec() <= larger_p.ordinal_spec(),
        d.are_between(a, b, difference),
        again.are_between(a, b, difference),
        d.are_within(s, p),
    ensures
        again.are_within(larger_s, larger_p),
{
    law_matches_are_close(a, b, s, p, difference, size, d);
    law_matches_are_close(a, b, larger_s, larger_p, difference, size, again);
}

/// Whether a number is between minus one half and one half.
pub open spec fn is_half_at_most(number: Single) -> bool {
    -HALF <= number.ordinal_spec() <= HALF
}

/// Whether no difference between numbers up to one half is above one.
pub open spec fn halves_differ_by_one_at_most(size: Size) -> bool {
    forall|a: Single, b: Single|
        is_half_at_most(a) && is_half_at_most(b) ==> #[trigger] size(a, b) <= ONE
}

/// A version of a glyph with an offset of zero.
pub open spec fn without_offset(a: GlyphScaleOffset) -> GlyphScaleOffset {
    let zero = Single { bits: 0 };
    GlyphScaleOffset { scale: a.scale, offset: (zero, zero) }
}

/// With a position tolerance of one pixel or more, offsets from the nearest grid point
/// do not matter.
pub proof fn law_whole_pixel_tolerance_ignores_offsets<S>(
    a: GlyphScaleOffset,
    b: GlyphScaleOffset,
    s: Single,
    p: Single,
    difference: S,
    size: Size,
    d: Differences,
    plain: Differences,
)
    where S: Fn(Single, Single) -> Single
    requires
        measures(difference, size),
        is_size(size),
        halves_differ_by_one_at_most(size),
        !p.is_nan_spec(),
        ONE <= p.ordinal_spec(),
        is_half_at_most(a.offset.0),
        is_half_at_most(a.offset.1),
        is_half_at_most(b.offset.0),
        is_half_at_most(b.offset.1),
        d.are_between(a, b, difference),
        plain.are_between(without_offset(a), without_offset(b), difference),
    ensures
        d.are_within(s, p) == plain.are_within(s, p),
{
    let zero = Single { bits: 0 };
    law_matches_are_close(a, b, s, p, difference, size, d);
    law_matches_are_close(without_offset(a), without_offset(b), s, p, difference, size, plain);
    assert(size(zero, zero) == 0);
    assert(size(a.offset.0, b.offset.0) <= ONE);
    assert(size(a.offset.1, b.offset.1) <= ONE);
}

// Distances.

/// The place, in the order of singles, of a difference of some size divided by a
/// tolerance.
pub type Part = spec_fn(int, Single) -> int;

/// The place, in the order of singles, of the sum of two numbers that are not negative.
pub type Total = spec_fn(int, int) -> int;

/// The place of infinity.
pub open spec fn infinity() -> int {
    0x7f80_0000
}

/// Whether the quotients that a function gives are of these sizes.
pub open spec fn divides<Q>(quotient: Q, part: Part) -> bool where
    Q: Fn(Single, Single) -> Single,
 {
    forall|d: Single, t: Single, q: Single| #[trigger]
        call_ensures(quotient, (d, t), q) ==> q.abs_spec().ordinal_spec() == part(
            d.abs_spec().ordinal_spec(),
            t,
        )
}

/// Whether the sums that a function gives of numbers that are not negative are these,
/// and are not negative either.
pub open spec fn adds_up<A>(sum: A, total: Total) -> bool where
    A: Fn(Single, Single) -> Single,
 {
    forall|a: Single, b: Single, c: Single| #[trigger]
        call_ensures(sum, (a, b), c) && a.bits <= infinity() && b.bits <= infinity() ==> c.bits
            <= infinity() && c.ordinal_spec() == total(a.ordinal_spec(), b.ordinal_spec())
}

/// Whether a number is between the smallest tolerance and one.
pub open spec fn is_common_tolerance(number: Single) -> bool {
    SMALLEST_TOLERANCE <= number.bits <= ONE
}

/// What subtraction makes sure of between finite numbers: a difference, and none of
/// zero between different numbers.
pub open spec fn tells_apart(size: Size) -> bool {
    forall|a: Single, b: Single|
        a.is_finite_spec() && b.is_finite_spec() ==> 0 <= #[trigger] size(a, b) <= infinity() && (
        size(a, b) == 0 ==> a.ordinal_spec() == b.ordinal_spec())
}

/// What division by a common tolerance makes sure of: it takes only zero to zero, and
/// what is at most the tolerance to at most one.
pub open spec fn is_part(part: Part) -> bool {
    forall|n: int, t: Single|
        0 <= n <= infinity() && is_common_tolerance(t) ==> {
            &&& 0 <= #[trigger] part(n, t) <= infinity()
            &&& part(n, t) == 0 <==> n == 0
            &&& n <= t.ordinal_spec() ==> part(n, t) <= ONE
        }
}

/// What addition makes sure of: only zeros add up to zero, larger numbers add up to no
/// less, and so many ones add up to two, three and four.
pub open spec fn is_total(total: Total) -> bool {
    &&& forall|m: int, n: int|
        0 <= m <= infinity() && 0 <= n <= infinity() ==> {
            &&& 0 <= #[trigger] total(m, n) <= infinity()
            &&& total(m, n) == 0 <==> m == 0 && n == 0
        }
    &&& forall|m: int, n: int, k: int, l: int|
        0 <= m <= k <= infinity() && 0 <= n <= l <= infinity() ==> #[trigger] total(m, n)
            <= #[trigger] total(k, l)
    &&& total(ONE as int, ONE as int) == 0x4000_0000
    &&& total(0x4000_0000, ONE as int) == 0x4040_0000
    &&& total(0x4040_0000, ONE as int) == 0x4080_0000
}

/// What a distance can rest on: operations that subtract, divide and add.
pub open spec fn computes<S, Q, A>(
    arithmetic: Arithmetic<S, Q, A>,
    size: Size,
    part: Part,
    total: Total,
) -> bool where
    S: Fn(Single, Single) -> Single,
    Q: Fn(Single, Single) -> Single,
    A: Fn(Single, Single) -> Single,
 {
    &&& measures(arithmetic.difference, size)
    &&& is_size(size)
    &&& tells_apart(size)
    &&& divides(arithmetic.quotient, part)
    &&& is_part(part)
    &&& adds_up(arithmetic.sum, total)
    &&& is_total(total)
}

/// The place of the distance between two versions.
pub open spec fn distance_place(
    a: GlyphScaleOffset,
    b: GlyphScaleOffset,
    s: Single,
    p: Single,
    size: Size,
    part: Part,
    total: Total,
) -> int {
    let sx = part(size(a.scale.0, b.scale.0), s);
    let sy = part(size(a.scale.1, b.scale.1), s);
    let ox = part(size(a.offset.0, b.offset.0), p);
    let oy = part(size(a.offset.1, b.offset.1), p);
    total(total(total(sx, sy), ox), oy)
}

/// A distance is not negative, and its place follows from the sizes of the differences.
pub proof fn lemma_distance_place<S, Q, A>(
    a: GlyphScaleOffset,
    b: GlyphScaleOffset,
    s: Single,
    p: Single,
    arithmetic: Arithmetic<S, Q, A>,
    size: Size,
    part: Part,
    total: Total,
    distance: Single,
)
    where
    S: Fn(Single, Single) -> Single,
    Q: Fn(Single, Single) -> Single,
    A: Fn(Single, Single) -> Single,

    requires
        computes(arithmetic, size, part, total),
        has_finite_numbers(a),
        has_finite_numbers(b),
        is_common_tolerance(s),
        is_common_tolerance(p),
        arithmetic.comparison().can_measure(a, b, s, p, distance),
    ensures
        distance.bits <= infinity(),
        distance.ordinal_spec() == distance_place(a, b, s, p, size, part, total),
{
    let (difference, quotient, sum) = (
        arithmetic.difference,
        arithmetic.quotient,
        arithmetic.sum,
    );
    let (d, q) = choose|d: Differences, q: Differences| #[trigger]
        d.are_between(a, b, difference) && #[trigger] q.are_parts_of(d, s, p, quotient)
            && q.add_up_to(sum, distance);
    assert(0 <= size(a.scale.0, b.scale.0) <= infinity());
    assert(0 <= size(a.scale.1, b.scale.1) <= infinity());
    assert(0 <= size(a.offset.0, b.offset.0) <= infinity());
    assert(0 <= size(a.offset.1, b.offset.1) <= infinity());
    assert(0 <= part(size(a.scale.0, b.scale.0), s) <= infinity());
    assert(0 <= part(size(a.scale.1, b.scale.1), s) <= infinity());
    assert(0 <= part(size(a.offset.0, b.offset.0), p) <= infinity());
    assert(0 <= part(size(a.offset.1, b.offset.1), p) <= infinity());
    lemma_size_is_not_negative(q.scale.0);
    lemma_size_is_not_negative(q.scale.1);
    lemma_size_is_not_negative(q.offset.0);
    lemma_size_is_not_negative(q.offset.1);
    let (two, three) = choose|two: Single, three: Single|
        {
            &&& #[trigger] call_ensures(sum, (q.scale.0.abs_spec(), q.scale.1.abs_spec()), two)
            &&& #[trigger] call_ensures(sum, (two, q.offset.0.abs_spec()), three)
            &&& call_ensures(sum, (three, q.offset.1.abs_spec()), distance)
        };
}

/// The size of a number that has a place up to infinity has the pattern of that place.
proof fn lemma_size_is_not_negative(number: Single)
    ensures
        number.abs_spec().ordinal_spec() <= infinity() ==> number.abs_spec().bits <= infinity()
            && number.abs_spec().ordinal_spec() == number.abs_spec().bits,
{
}

/// A distance is not negative and no NaN, and it is zero between equal versions and no
/// others.
pub proof fn law_distance_is_zero_between_equals<S, Q, A>(
    a: GlyphScaleOffset,
    b: GlyphScaleOffset,
    s: Single,
    p: Single,
    arithmetic: Arithmetic<S, Q, A>,
    size: Size,
    part: Part,
    total: Total,
    distance: Single,
)
    where
    S: Fn(Single, Single) -> Single,
    Q: Fn(Single, Single) -> Single,
    A: Fn(Single, Single) -> Single,

    requires
        computes(arithmetic, size, part, total),
        has_finite_numbers(a),
        has_finite_numbers(b),
        is_common_tolerance(s),
        is_common_tolerance(p),
        arithmetic.comparison().can_measure(a, b, s, p, distance),
    ensures
        !distance.is_nan_spec(),
        0 <= distance.ordinal_spec(),
        distance.ordinal_spec() == 0 <==> a.rank_spec() == b.rank_spec(),
{
    lemma_distance_place(a, b, s, p, arithmetic, size, part, total, distance);
    law_order_is_lexicographic(a, b);
    let sx = part(size(a.scale.0, b.scale.0), s);
    let sy = part(size(a.scale.1, b.scale.1), s);
    let ox = part(size(a.offset.0, b.offset.0), p);
    let oy = part(size(a.offset.1, b.offset.1), p);
    assert(0 <= size(a.scale.0, b.scale.0) <= infinity());
    assert(0 <= size(a.scale.1, b.scale.1) <= infinity());
    assert(0 <= size(a.offset.0, b.offset.0) <= infinity());
    assert(0 <= size(a.offset.1, b.offset.1) <= infinity());
    assert(0 <= total(sx, sy) <= infinity());
    assert(0 <= total(total(sx, sy), ox) <= infinity());
}

/// A distance is the same both ways.
pub proof fn law_distance_is_symmetric<S, Q, A>(
    a: GlyphScaleOffset,
    b: GlyphScaleOffset,
    s: Single,
    p: Single,
    arithmetic: Arithmetic<S, Q, A>,
    size: Size,
    part: Part,
    total: Total,
    distance: Single,
    back: Single,
)
    where
    S: Fn(Single, Single) -> Single,
    Q: Fn(Single, Single) -> Single,
    A: Fn(Single, Single) -> Single,

    requires
        computes(arithmetic, size, part, total),
        has_finite_numbers(a),
        has_finite_numbers(b),
        is_common_tolerance(s),
        is_common_tolerance(p),
        arithmetic.comparison().can_measure(a, b, s, p, distance),
        arithmetic.comparison().can_measure(b, a, s, p, back),
    ensures
        distance.ordinal_spec() == back.ordinal_spec(),
{
    lemma_distance_place(a, b, s, p, arithmetic, size, part, total, distance);
    lemma_distance_place(b, a, s, p, arithmetic, size, part, total, back);
    lemma_sizes_are_symmetric(a, b, size);
}

/// The distance between versions that match is four at most.
pub proof fn law_matches_are_not_far<S, Q, A>(
    a: GlyphScaleOffset,
    b: GlyphScaleOffset,
    s: Single,
    p: Single,
    arithmetic: Arithmetic<S, Q, A>,
    size: Size,
    part: Part,
    total: Total,
    distance: Single,
)
    where
    S: Fn(Single, Single) -> Single,
    Q: Fn(Single, Single) -> Single,
    A: Fn(Single, Single) -> Single,

    requires
        computes(arithmetic, size, part, total),
        is_common_tolerance(s),
        is_common_tolerance(p),
        arithmetic.comparison().can_match(a, b, s, p, true),
        arithmetic.comparison().can_measure(a, b, s, p, distance),
    ensures
        distance.bits <= 0x4080_0000,
{
    let difference = arithmetic.difference;
    let d = choose|d: Differences| #[trigger]
        d.are_between(a, b, difference) && d.are_within(s, p);
    law_matches_are_close(a, b, s, p, difference, size, d);
    assert(closeness(size)(a, b, s, p));
    assert(has_finite_numbers(a) && has_finite_numbers(b)) by {
        assert(size(a.scale.0, b.scale.0) < infinity());
        assert(size(a.scale.1, b.scale.1) < infinity());
        assert(size(a.offset.0, b.offset.0) < infinity());
        assert(size(a.offset.1, b.offset.1) < infinity());
    }
    lemma_distance_place(a, b, s, p, arithmetic, size, part, total, distance);
    let one = ONE as int;
    let sx = part(size(a.scale.0, b.scale.0), s);
    let sy = part(size(a.scale.1, b.scale.1), s);
    let ox = part(size(a.offset.0, b.offset.0), p);
    let oy = part(size(a.offset.1, b.offset.1), p);
    assert(0 <= size(a.scale.0, b.scale.0) <= infinity());
    assert(0 <= size(a.scale.1, b.scale.1) <= infinity());
    assert(0 <= size(a.offset.0, b.offset.0) <= infinity());
    assert(0 <= size(a.offset.1, b.offset.1) <= infinity());
    assert(total(sx, sy) <= total(one, one));
    assert(total(total(sx, sy), ox) <= total(0x4000_0000, one));
    assert(total(total(total(sx, sy), ox), oy) <= total(0x4040_0000, one));
}

// Offsets.

/// A number with the opposite sign.
pub open spec fn negated(number: Single) -> Single {
    if number.bits < 0x8000_0000 {
        Single { bits: (number.bits + 0x8000_0000) as u32 }
    } else {
        Single { bits: (number.bits - 0x8000_0000) as u32 }
    }
}

/// Whether adding one to the negation of a finite number gives the negation of what
/// subtracting one from it gives.
pub open spec fn are_opposite<S, A>(difference: S, sum: A) -> bool where
    S: Fn(Single, Single) -> Single,
    A: Fn(Single, Single) -> Single,
 {
    forall|x: Single, d: Single, e: Single|
        x.is_finite_spec() && #[trigger] call_ensures(difference, (x, Single { bits: ONE }), d)
            && #[trigger] call_ensures(sum, (negated(x), Single { bits: ONE }), e)
            ==> e.ordinal_spec() == -d.ordinal_spec()
}

/// Measuring an offset from the nearest grid point commutes with negation.
pub proof fn law_normalising_commutes_with_negation<S, A>(
    coordinate: Single,
    difference: S,
    sum: A,
    normalised: Single,
    opposite: Single,
)
    where
    S: Fn(Single, Single) -> Single,
    A: Fn(Single, Single) -> Single,

    requires
        are_opposite(difference, sum),
        coordinate.is_finite_spec(),
        is_normalised(coordinate, difference, sum, normalised),
        is_normalised(negated(coordinate), difference, sum, opposite),
    ensures
        opposite.ordinal_spec() == -normalised.ordinal_spec(),
{
    let x = negated(coordinate);
    assert(negated(x) == coordinate);
    assert(x.is_finite_spec());
    assert(x.ordinal_spec() == -coordinate.ordinal_spec());
}

} // verus!
