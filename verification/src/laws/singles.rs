//! What holds of numbers and offsets.

use crate::laws::versions::is_half_at_most;
use crate::scale_offset::is_normalised;
use crate::single::{DEFAULT_TOLERANCE, HALF, MINUS_HALF, ONE, SMALLEST_TOLERANCE, Single};
use vstd::prelude::*;

verus! {

/// Whether a pattern is that of a number that is not negative.
pub open spec fn is_plain(number: Single) -> bool {
    number.bits <= 0x7f80_0000
}

/// Whether a pattern is that of a number with a minus sign.
pub open spec fn is_minus(number: Single) -> bool {
    0x8000_0000 <= number.bits <= 0xff80_0000
}

/// Numbers that are not negative are in the order of their patterns, those with a minus
/// sign in the opposite order and below the others, and the two zeros are equal. Nothing
/// else is less than anything.
pub proof fn law_numbers_are_in_order(a: Single, b: Single)
    ensures
        is_plain(a) && is_plain(b) ==> (a.less_than_spec(b) <==> a.bits < b.bits),
        is_minus(a) && is_minus(b) ==> (a.less_than_spec(b) <==> b.bits < a.bits),
        is_minus(a) && is_plain(b) ==> (a.less_than_spec(b) <==> a.bits > 0x8000_0000 || b.bits
            > 0),
        is_plain(a) && is_minus(b) ==> !a.less_than_spec(b),
        a.less_than_spec(b) ==> (is_plain(a) || is_minus(a)) && (is_plain(b) || is_minus(b)),
{
}

/// Numbers share a place in the order only if they have the same pattern, are both zero,
/// or are neither of them numbers. Otherwise one is less than the other, or it stands
/// above all numbers.
pub proof fn law_places_tell_numbers_apart(a: Single, b: Single)
    requires
        is_plain(a) || is_minus(a),
    ensures
        a.ordinal_spec() == b.ordinal_spec() <==> a == b || (a.bits % 0x8000_0000 == 0 && b.bits
            % 0x8000_0000 == 0),
        is_plain(b) || is_minus(b) ==> (a.less_than_spec(b) <==> a.ordinal_spec()
            < b.ordinal_spec()),
        !is_plain(b) && !is_minus(b) ==> a.ordinal_spec() < b.ordinal_spec(),
{
}

/// A number without its sign has the rest of its pattern.
pub proof fn law_sizes_have_no_sign(number: Single)
    ensures
        number.bits < 0x8000_0000 ==> number.abs_spec() == number,
        number.bits >= 0x8000_0000 ==> number.abs_spec().bits == number.bits - 0x8000_0000,
{
}

/// The larger of two numbers is one of them, and neither is larger.
pub proof fn law_larger_is_one_of_two(a: Single, b: Single)
    requires
        is_plain(a) || is_minus(a),
        is_plain(b) || is_minus(b),
    ensures
        a.max_spec(b) == a || a.max_spec(b) == b,
        !a.max_spec(b).less_than_spec(a),
        !a.max_spec(b).less_than_spec(b),
{
}

/// A tolerance is kept, unless it is below the smallest. Then the smallest takes its place.
pub proof fn law_tolerances_are_kept(tolerance: Single)
    requires
        0 < tolerance.bits <= 0x7f80_0000,
    ensures
        tolerance.bits >= SMALLEST_TOLERANCE ==> tolerance.max_spec(
            Single { bits: SMALLEST_TOLERANCE },
        ) == tolerance,
        tolerance.bits < SMALLEST_TOLERANCE ==> tolerance.max_spec(
            Single { bits: SMALLEST_TOLERANCE },
        ).bits == SMALLEST_TOLERANCE,
{
}

/// A difference is within a tolerance if it is finite and its size is at most the
/// tolerance.
pub proof fn law_differences_are_within_tolerances(difference: Single, tolerance: Single)
    requires
        is_plain(tolerance),
    ensures
        difference.is_within_spec(tolerance) <==> difference.bits % 0x8000_0000 < 0x7f80_0000
            && difference.bits % 0x8000_0000 <= tolerance.bits,
{
}

/// The named numbers are what they are called: one, a half and its opposite, and those
/// nearest to a thousandth and to a tenth. Each is its significand times a power of two.
pub proof fn law_named_numbers_are_right()
    ensures
        ONE == 127 * 0x80_0000,
        HALF == 126 * 0x80_0000,
        MINUS_HALF == HALF + 0x8000_0000,
        SMALLEST_TOLERANCE / 0x80_0000 == 117,
        -500 <= 1000 * (SMALLEST_TOLERANCE % 0x80_0000 + 0x80_0000) - 0x2_0000_0000 <= 500,
        DEFAULT_TOLERANCE / 0x80_0000 == 123,
        -5 <= 10 * (DEFAULT_TOLERANCE % 0x80_0000 + 0x80_0000) - 0x800_0000 <= 5,
{
}

/// An offset of at most half a pixel is kept. A larger one is measured from the next grid
/// point: one to the right or below loses a pixel, one to the left or above gains one.
pub proof fn law_offsets_are_kept_or_moved_by_a_pixel<S, A>(
    coordinate: Single,
    difference: S,
    sum: A,
    normalised: Single,
)
    where
    S: Fn(Single, Single) -> Single,
    A: Fn(Single, Single) -> Single,

    requires
        is_normalised(coordinate, difference, sum, normalised),
    ensures
        is_half_at_most(coordinate) ==> normalised == coordinate,
        HALF < coordinate.bits <= 0x7f80_0000 ==> call_ensures(
            difference,
            (coordinate, Single { bits: ONE }),
            normalised,
        ),
        MINUS_HALF < coordinate.bits <= 0xff80_0000 ==> call_ensures(
            sum,
            (coordinate, Single { bits: ONE }),
            normalised,
        ),
{
}

/// What moving by a pixel makes sure of: an offset between half a pixel and a whole one is
/// at most half a pixel from the next grid point.
pub open spec fn moves_by_a_pixel<S, A>(difference: S, sum: A) -> bool where
    S: Fn(Single, Single) -> Single,
    A: Fn(Single, Single) -> Single,
 {
    &&& forall|c: Single, d: Single|
        HALF <= c.bits <= ONE && #[trigger] call_ensures(difference, (c, Single { bits: ONE }), d)
            ==> is_half_at_most(d)
    &&& forall|c: Single, d: Single|
        MINUS_HALF <= c.bits <= ONE + 0x8000_0000 && #[trigger] call_ensures(
            sum,
            (c, Single { bits: ONE }),
            d,
        ) ==> is_half_at_most(d)
}

/// Measured from the nearest grid point, no offset of a pixel or less is more than half a
/// pixel.
pub proof fn law_offsets_are_half_a_pixel_at_most<S, A>(
    coordinate: Single,
    difference: S,
    sum: A,
    normalised: Single,
)
    where
    S: Fn(Single, Single) -> Single,
    A: Fn(Single, Single) -> Single,

    requires
        moves_by_a_pixel(difference, sum),
        coordinate.bits % 0x8000_0000 <= ONE,
        is_normalised(coordinate, difference, sum, normalised),
    ensures
        is_half_at_most(normalised),
{
}

} // verus!
