//! The scale and subpixel offset at which a glyph is drawn.

use crate::single::{HALF, MINUS_HALF, ONE, Single};
use std::cmp::Ordering;
use vstd::prelude::*;

verus! {

/// The scale of a glyph and the offset of its origin from the pixel grid.
///
/// Two glyphs of one font differ in how they are drawn only by these four
/// numbers. They are ordered by horizontal scale first, then vertical scale,
/// horizontal offset and vertical offset.
#[derive(Clone, Copy, Debug)]
pub struct GlyphScaleOffset {
    /// Horizontal and vertical scale.
    pub scale: (Single, Single),
    /// Horizontal and vertical offset.
    pub offset: (Single, Single),
}

/// One digit of a rank: the place of a number in the order of singles, counted
/// from that of negative infinity.
pub open spec fn digit(number: Single) -> int {
    number.ordinal_spec() + 0x7f80_0000
}

impl GlyphScaleOffset {
    /// The place in the order: the four numbers as the digits of one, so that the
    /// first difference between two of them decides.
    pub open spec fn rank_spec(self) -> int {
        ((digit(self.scale.0) * 0x1_0000_0000 + digit(self.scale.1)) * 0x1_0000_0000 + digit(
            self.offset.0,
        )) * 0x1_0000_0000 + digit(self.offset.1)
    }

    /// A scale and an offset, taken together.
    pub fn new(scale: (Single, Single), offset: (Single, Single)) -> (spec: Self)
        ensures
            spec == (GlyphScaleOffset { scale, offset }),
    {
        GlyphScaleOffset { scale, offset }
    }

    /// The offset.
    pub fn offset(&self) -> (offset: (Single, Single))
        ensures
            offset == self.offset,
    {
        self.offset
    }

    /// The place in the order.
    pub fn rank(&self) -> (rank: u128)
        ensures
            rank == self.rank_spec(),
            rank < u128::MAX,
    {
        let d0: u128 = (self.scale.0.ordinal() + 0x7f80_0000) as u128;
        let d1: u128 = (self.scale.1.ordinal() + 0x7f80_0000) as u128;
        let d2: u128 = (self.offset.0.ordinal() + 0x7f80_0000) as u128;
        let d3: u128 = (self.offset.1.ordinal() + 0x7f80_0000) as u128;
        ((d0 * 0x1_0000_0000 + d1) * 0x1_0000_0000 + d2) * 0x1_0000_0000 + d3
    }
}

/// How far two versions of a glyph are apart: horizontal scale, vertical scale,
/// horizontal offset, vertical offset.
pub struct Differences {
    /// In scale.
    pub scale: (Single, Single),
    /// In offset.
    pub offset: (Single, Single),
}

impl Differences {
    /// Whether these are possible differences between two versions of a glyph.
    pub open spec fn are_between<S>(
        self,
        a: GlyphScaleOffset,
        b: GlyphScaleOffset,
        difference: S,
    ) -> bool where S: Fn(Single, Single) -> Single {
        &&& call_ensures(difference, (a.scale.0, b.scale.0), self.scale.0)
        &&& call_ensures(difference, (a.scale.1, b.scale.1), self.scale.1)
        &&& call_ensures(difference, (a.offset.0, b.offset.0), self.offset.0)
        &&& call_ensures(difference, (a.offset.1, b.offset.1), self.offset.1)
    }

    /// Whether every difference is finite, and at most its tolerance.
    pub open spec fn are_within(self, scale_tolerance: Single, position_tolerance: Single) -> bool {
        &&& self.scale.0.is_within_spec(scale_tolerance)
        &&& self.scale.1.is_within_spec(scale_tolerance)
        &&& self.offset.0.is_within_spec(position_tolerance)
        &&& self.offset.1.is_within_spec(position_tolerance)
    }
}

impl GlyphScaleOffset {
    /// Returns if this cached glyph can be considered to match another at
    /// input tolerances: these are the maximum allowed differences. `difference`
    /// subtracts.
    pub fn matches<S>(
        &self,
        other: &GlyphScaleOffset,
        scale_tolerance: Single,
        position_tolerance: Single,
        difference: &S,
    ) -> (answer: bool) where S: Fn(Single, Single) -> Single
        requires
            forall|a: Single, b: Single| #[trigger] call_requires(*difference, (a, b)),
        ensures
            exists|d: Differences| #[trigger]
                d.are_between(*self, *other, *difference) && answer == d.are_within(
                    scale_tolerance,
                    position_tolerance,
                ),
    {
        let sx: Single = difference(self.scale.0, other.scale.0);
        let sy: Single = difference(self.scale.1, other.scale.1);
        let ox: Single = difference(self.offset.0, other.offset.0);
        let oy: Single = difference(self.offset.1, other.offset.1);
        let ghost d = Differences { scale: (sx, sy), offset: (ox, oy) };
        assert(d.are_between(*self, *other, *difference));
        sx.is_within(scale_tolerance) && sy.is_within(scale_tolerance) && ox.is_within(
            position_tolerance,
        ) && oy.is_within(position_tolerance)
    }

    /// How far another version of the glyph is from this one, in tolerances: the sum
    /// of the four differences, each divided by its tolerance. `difference` subtracts,
    /// `quotient` divides and `sum` adds.
    pub fn match_distance<S, Q, A>(
        &self,
        other: &GlyphScaleOffset,
        scale_tolerance: Single,
        position_tolerance: Single,
        difference: &S,
        quotient: &Q,
        sum: &A,
    ) -> (total: Single) where
        S: Fn(Single, Single) -> Single,
        Q: Fn(Single, Single) -> Single,
        A: Fn(Single, Single) -> Single,

        requires
            forall|a: Single, b: Single| #[trigger] call_requires(*difference, (a, b)),
            forall|a: Single, b: Single| #[trigger] call_requires(*quotient, (a, b)),
            forall|a: Single, b: Single| #[trigger] call_requires(*sum, (a, b)),
        ensures
            exists|d: Differences, q: Differences| #[trigger]
                d.are_between(*self, *other, *difference) && #[trigger] q.are_parts_of(
                    d,
                    scale_tolerance,
                    position_tolerance,
                    *quotient,
                ) && q.add_up_to(*sum, total),
    {
        let sx: Single = difference(self.scale.0, other.scale.0);
        let sy: Single = difference(self.scale.1, other.scale.1);
        let ox: Single = difference(self.offset.0, other.offset.0);
        let oy: Single = difference(self.offset.1, other.offset.1);
        let ghost d = Differences { scale: (sx, sy), offset: (ox, oy) };
        let qsx: Single = quotient(sx, scale_tolerance);
        let qsy: Single = quotient(sy, scale_tolerance);
        let qox: Single = quotient(ox, position_tolerance);
        let qoy: Single = quotient(oy, position_tolerance);
        let ghost q = Differences { scale: (qsx, qsy), offset: (qox, qoy) };
        let two: Single = sum(qsx.abs(), qsy.abs());
        let three: Single = sum(two, qox.abs());
        let total: Single = sum(three, qoy.abs());
        assert(d.are_between(*self, *other, *difference));
        assert(q.are_parts_of(d, scale_tolerance, position_tolerance, *quotient));
        total
    }
}

impl Differences {
    /// Whether these are possible quotients of some differences and their tolerances.
    pub open spec fn are_parts_of<Q>(
        self,
        d: Differences,
        scale_tolerance: Single,
        position_tolerance: Single,
        quotient: Q,
    ) -> bool where Q: Fn(Single, Single) -> Single {
        &&& call_ensures(quotient, (d.scale.0, scale_tolerance), self.scale.0)
        &&& call_ensures(quotient, (d.scale.1, scale_tolerance), self.scale.1)
        &&& call_ensures(quotient, (d.offset.0, position_tolerance), self.offset.0)
        &&& call_ensures(quotient, (d.offset.1, position_tolerance), self.offset.1)
    }

    /// Whether adding the sizes of all four, one after another, can give a total.
    pub open spec fn add_up_to<A>(self, sum: A, total: Single) -> bool where
        A: Fn(Single, Single) -> Single,
     {
        exists|two: Single, three: Single|
            {
                &&& #[trigger] call_ensures(
                    sum,
                    (self.scale.0.abs_spec(), self.scale.1.abs_spec()),
                    two,
                )
                &&& #[trigger] call_ensures(sum, (two, self.offset.0.abs_spec()), three)
                &&& call_ensures(sum, (three, self.offset.1.abs_spec()), total)
            }
    }
}

/// Whether a coordinate can be normalised to another: one that is more than half a
/// pixel from the grid point it is measured from is measured from the next.
pub open spec fn is_normalised<S, A>(
    coordinate: Single,
    difference: S,
    sum: A,
    normalised: Single,
) -> bool where S: Fn(Single, Single) -> Single, A: Fn(Single, Single) -> Single {
    if (Single { bits: HALF }).less_than_spec(coordinate) {
        call_ensures(difference, (coordinate, Single { bits: ONE }), normalised)
    } else if coordinate.less_than_spec(Single { bits: MINUS_HALF }) {
        call_ensures(sum, (coordinate, Single { bits: ONE }), normalised)
    } else {
        normalised == coordinate
    }
}

/// Measures one coordinate of an offset from the nearest grid point.
fn normalise_coordinate<S, A>(coordinate: Single, difference: &S, sum: &A) -> (normalised:
    Single) where S: Fn(Single, Single) -> Single, A: Fn(Single, Single) -> Single
    requires
        forall|a: Single, b: Single| #[trigger] call_requires(*difference, (a, b)),
        forall|a: Single, b: Single| #[trigger] call_requires(*sum, (a, b)),
    ensures
        is_normalised(coordinate, *difference, *sum, normalised),
{
    if (Single { bits: HALF }).less_than(coordinate) {
        difference(coordinate, Single { bits: ONE })
    } else if coordinate.less_than(Single { bits: MINUS_HALF }) {
        sum(coordinate, Single { bits: ONE })
    } else {
        coordinate
    }
}

/// Measures an offset of less than a pixel from the nearest grid point. `difference`
/// subtracts and `sum` adds.
pub fn normalise_pixel_offset<S, A>(offset: (Single, Single), difference: &S, sum: &A) -> (
normalised: (Single, Single)) where
    S: Fn(Single, Single) -> Single,
    A: Fn(Single, Single) -> Single,

    requires
        forall|a: Single, b: Single| #[trigger] call_requires(*difference, (a, b)),
        forall|a: Single, b: Single| #[trigger] call_requires(*sum, (a, b)),
    ensures
        is_normalised(offset.0, *difference, *sum, normalised.0),
        is_normalised(offset.1, *difference, *sum, normalised.1),
{
    (
        normalise_coordinate(offset.0, difference, sum),
        normalise_coordinate(offset.1, difference, sum),
    )
}

impl GlyphScaleOffset {
    /// Compares the scales and, where they are the same, the offsets.
    pub fn cmp(&self, other: &GlyphScaleOffset) -> (order: Ordering)
        ensures
            order == if self.rank_spec() < other.rank_spec() {
                Ordering::Less
            } else if self.rank_spec() == other.rank_spec() {
                Ordering::Equal
            } else {
                Ordering::Greater
            },
    {
        if self.rank() < other.rank() {
            Ordering::Less
        } else if self.rank() == other.rank() {
            Ordering::Equal
        } else {
            Ordering::Greater
        }
    }
}

impl PartialEq for GlyphScaleOffset {
    fn eq(&self, other: &GlyphScaleOffset) -> (same: bool) {
        self.rank() == other.rank()
    }
}

impl vstd::std_specs::cmp::PartialEqSpecImpl for GlyphScaleOffset {
    open spec fn obeys_eq_spec() -> bool {
        true
    }

    open spec fn eq_spec(&self, other: &GlyphScaleOffset) -> bool {
        self.rank_spec() == other.rank_spec()
    }
}

impl Eq for GlyphScaleOffset {

}

impl PartialOrd for GlyphScaleOffset {
    fn partial_cmp(&self, other: &GlyphScaleOffset) -> (order: Option<Ordering>) {
        Some(self.cmp(other))
    }
}

impl vstd::std_specs::cmp::PartialOrdSpecImpl for GlyphScaleOffset {
    open spec fn obeys_partial_cmp_spec() -> bool {
        true
    }

    open spec fn partial_cmp_spec(&self, other: &GlyphScaleOffset) -> Option<Ordering> {
        if self.rank_spec() < other.rank_spec() {
            Some(Ordering::Less)
        } else if self.rank_spec() == other.rank_spec() {
            Some(Ordering::Equal)
        } else {
            Some(Ordering::Greater)
        }
    }
}

} // verus!
