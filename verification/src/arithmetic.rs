//! Arithmetic on single-precision numbers, and what it says of versions of a glyph.

use crate::scale_offset::{Differences, GlyphScaleOffset};
use crate::single::Single;
use vstd::prelude::*;

verus! {

/// The operations on single-precision numbers by which a cache compares versions of a
/// glyph. The cache holds numbers by their bit patterns, so it is given them.
#[derive(Clone, Copy)]
pub struct Arithmetic<S, Q, A> {
    /// Subtracts the second number from the first.
    pub difference: S,
    /// Divides the first number by the second.
    pub quotient: Q,
    /// Adds two numbers.
    pub sum: A,
}

/// What may be said of two versions of a glyph at a scale and a position tolerance.
pub struct Comparison {
    /// Whether the answer may be that the first matches the second, or that it does
    /// not.
    pub matches: spec_fn(GlyphScaleOffset, GlyphScaleOffset, Single, Single, bool) -> bool,
    /// Whether the answer may be that the first is this far from the second.
    pub distance: spec_fn(GlyphScaleOffset, GlyphScaleOffset, Single, Single, Single) -> bool,
}

impl Comparison {
    /// Whether this is a possible answer to whether one version matches another.
    pub open spec fn can_match(
        self,
        a: GlyphScaleOffset,
        b: GlyphScaleOffset,
        scale_tolerance: Single,
        position_tolerance: Single,
        answer: bool,
    ) -> bool {
        (self.matches)(a, b, scale_tolerance, position_tolerance, answer)
    }

    /// Whether this is a possible answer to how far one version is from another.
    pub open spec fn can_measure(
        self,
        a: GlyphScaleOffset,
        b: GlyphScaleOffset,
        scale_tolerance: Single,
        position_tolerance: Single,
        total: Single,
    ) -> bool {
        (self.distance)(a, b, scale_tolerance, position_tolerance, total)
    }
}

impl<S, Q, A> Arithmetic<S, Q, A> where
    S: Fn(Single, Single) -> Single,
    Q: Fn(Single, Single) -> Single,
    A: Fn(Single, Single) -> Single,
 {
    /// Whether every operation can be applied to any two numbers.
    pub open spec fn is_total(self) -> bool {
        &&& forall|a: Single, b: Single| #[trigger] call_requires(self.difference, (a, b))
        &&& forall|a: Single, b: Single| #[trigger] call_requires(self.quotient, (a, b))
        &&& forall|a: Single, b: Single| #[trigger] call_requires(self.sum, (a, b))
    }

    /// What the operations say of two versions of a glyph: they match if no difference
    /// between them is above its tolerance, and their distance is the sum of the four
    /// differences, each divided by its tolerance.
    pub open spec fn comparison(self) -> Comparison {
        Comparison {
            matches: |
                a: GlyphScaleOffset,
                b: GlyphScaleOffset,
                scale_tolerance: Single,
                position_tolerance: Single,
                answer: bool,
            |
                exists|d: Differences| #[trigger]
                    d.are_between(a, b, self.difference) && answer == d.are_within(
                        scale_tolerance,
                        position_tolerance,
                    ),
            distance: |
                a: GlyphScaleOffset,
                b: GlyphScaleOffset,
                scale_tolerance: Single,
                position_tolerance: Single,
                total: Single,
            |
                exists|d: Differences, q: Differences| #[trigger]
                    d.are_between(a, b, self.difference) && #[trigger] q.are_parts_of(
                        d,
                        scale_tolerance,
                        position_tolerance,
                        self.quotient,
                    ) && q.add_up_to(self.sum, total),
        }
    }
}

} // verus!
