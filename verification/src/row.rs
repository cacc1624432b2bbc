//! Rows of the texture.

use crate::geometry::Rect;
use crate::glyph::GlyphId;
use crate::scale_offset::GlyphScaleOffset;
use vstd::prelude::*;

verus! {

/// A glyph in the texture.
#[derive(Clone, Copy, Debug)]
pub struct GlyphTexInfo {
    /// The font and the number of the glyph within it.
    pub font_glyph: (usize, GlyphId),
    /// The scale and offset at which it was drawn.
    pub scale_offset: GlyphScaleOffset,
    /// The pixels that it fills, padding included.
    pub tex_coords: Rect<u32>,
}

/// Row of pixel data.
#[derive(Debug)]
pub struct Row {
    /// Row pixel height.
    pub height: u32,
    /// Pixel width current in use by glyphs.
    pub width: u32,
    /// The glyphs, in the order in which they were added.
    pub glyphs: Vec<GlyphTexInfo>,
}

/// What a row holds.
#[verifier::ext_equal]
pub struct RowView {
    /// Pixel height.
    pub height: u32,
    /// Pixel width in use by glyphs.
    pub width: u32,
    /// The glyphs, in the order in which they were added.
    pub glyphs: Seq<GlyphTexInfo>,
}

/// The view of a row: what it holds.
impl View for Row {
    type V = RowView;

    open spec fn view(&self) -> RowView {
        RowView { height: self.height, width: self.width, glyphs: self.glyphs@ }
    }
}

/// The number by which a glyph of a font is found in the index.
pub open spec fn font_glyph_key_spec(font_glyph: (usize, GlyphId)) -> u128 {
    (font_glyph.0 * 0x1_0000_0000 + font_glyph.1.0) as u128
}

/// The number by which a glyph of a font is found in the index.
pub fn font_glyph_key(font_glyph: (usize, GlyphId)) -> (key: u128)
    ensures
        key == font_glyph_key_spec(font_glyph),
{
    font_glyph.0 as u128 * 0x1_0000_0000 + font_glyph.1.0 as u128
}

} // verus!
