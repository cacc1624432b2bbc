//! What the cache knows of a glyph.

use crate::arithmetic::Arithmetic;
use crate::geometry::Rect;
use crate::scale_offset::{is_normalised, normalise_pixel_offset, GlyphScaleOffset};
use crate::single::Single;
use vstd::prelude::*;

verus! {

/// The number of a glyph within its font.
#[derive(Clone, Copy, Debug, PartialEq, Eq, Structural)]
pub struct GlyphId(pub u32);

/// A glyph at a place on the pixel grid.
///
/// It has no outline. Whoever draws glyphs finds the one to draw by its handle.
#[derive(Clone, Copy, Debug, PartialEq, Eq)]
pub struct PositionedGlyph {
    /// The number of the glyph within its font.
    pub id: GlyphId,
    /// Horizontal and vertical scale.
    pub scale: (Single, Single),
    /// Horizontal and vertical distance of the origin from the nearest grid
    /// point.
    pub offset: (Single, Single),
    /// The pixels that the glyph covers, or nothing if it has no shape.
    pub bounding_box: Option<Rect<i32>>,
    /// The caller's number for the glyph.
    pub handle: usize,
}

impl PositionedGlyph {
    /// The scale and offset at which the glyph is drawn.
    pub open spec fn spec(self) -> GlyphScaleOffset {
        GlyphScaleOffset { scale: self.scale, offset: self.offset }
    }

    /// Whether the bounding box, where there is one, is a box.
    pub open spec fn is_drawable(self) -> bool {
        match self.bounding_box {
            Some(bb) => bb.is_box(),
            None => true,
        }
    }

    /// Whether the bounding box, where there is one, is a box.
    pub fn can_be_cached(&self) -> (can: bool)
        ensures
            can == self.is_drawable(),
    {
        match self.bounding_box {
            Some(bb) => {
                let width: i64 = bb.max.x as i64 - bb.min.x as i64;
                let height: i64 = bb.max.y as i64 - bb.min.y as i64;
                0 <= width && width <= i32::MAX as i64 && 0 <= height && height <= i32::MAX as i64
            },
            None => true,
        }
    }

    /// A glyph whose origin is at this distance from the grid point towards zero. Its
    /// offset is measured from the nearest one.
    pub fn new<S, Q, A>(
        id: GlyphId,
        scale: (Single, Single),
        fraction: (Single, Single),
        bounding_box: Option<Rect<i32>>,
        handle: usize,
        arithmetic: &Arithmetic<S, Q, A>,
    ) -> (glyph: Self) where
        S: Fn(Single, Single) -> Single,
        Q: Fn(Single, Single) -> Single,
        A: Fn(Single, Single) -> Single,

        requires
            arithmetic.is_total(),
        ensures
            glyph.id == id,
            glyph.scale == scale,
            is_normalised(
                fraction.0,
                arithmetic.difference,
                arithmetic.sum,
                glyph.offset.0,
            ),
            is_normalised(
                fraction.1,
                arithmetic.difference,
                arithmetic.sum,
                glyph.offset.1,
            ),
            glyph.bounding_box == bounding_box,
            glyph.handle == handle,
    {
        let offset = normalise_pixel_offset(fraction, &arithmetic.difference, &arithmetic.sum);
        PositionedGlyph { id, scale, offset, bounding_box, handle }
    }

    /// The pixels that the glyph covers, or nothing if it has no shape.
    pub fn pixel_bounding_box(&self) -> (bb: Option<Rect<i32>>)
        ensures
            bb == self.bounding_box,
    {
        self.bounding_box
    }

    /// The number of the glyph within its font.
    pub fn id(&self) -> (id: GlyphId)
        ensures
            id == self.id,
    {
        self.id
    }
}

} // verus!
