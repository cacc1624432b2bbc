//! What is drawn into a cell.

use crate::geometry::Rect;
use crate::upload::{lemma_last_sample_shows, lemma_untouched_is_blank, painted};
use vstd::prelude::*;

verus! {

/// A sample after which none falls on its pixel is what stands there, at its full value:
/// in its own column and row, or with padding in the next ones.
pub proof fn law_last_samples_are_shown(samples: Seq<(u32, u32, u8)>, i: int)
    requires
        0 <= i < samples.len(),
        forall|j: int|
            i < j < samples.len() ==> (#[trigger] samples[j]).0 != samples[i].0 || samples[j].1
                != samples[i].1,
    ensures
        painted(samples, false, samples[i].1 as int, samples[i].0 as int) == samples[i].2,
        painted(samples, true, samples[i].1 + 1, samples[i].0 + 1) == samples[i].2,
{
    lemma_last_sample_shows(samples, false, i);
    lemma_last_sample_shows(samples, true, i);
}

/// A pixel on which no sample falls is blank.
pub proof fn law_untouched_pixels_are_blank(
    samples: Seq<(u32, u32, u8)>,
    row: int,
    col: int,
)
    ensures
        (forall|i: int|
            0 <= i < samples.len() ==> (#[trigger] samples[i]).1 != row || samples[i].0 != col)
            ==> painted(samples, false, row, col) == 0,
        (forall|i: int|
            0 <= i < samples.len() ==> (#[trigger] samples[i]).1 + 1 != row || samples[i].0 + 1
                != col) ==> painted(samples, true, row, col) == 0,
{
    if forall|i: int|
        0 <= i < samples.len() ==> (#[trigger] samples[i]).1 != row || samples[i].0 != col {
        lemma_untouched_is_blank(samples, false, row, col);
    }
    if forall|i: int|
        0 <= i < samples.len() ==> (#[trigger] samples[i]).1 + 1 != row || samples[i].0 + 1
            != col {
        lemma_untouched_is_blank(samples, true, row, col);
    }
}

/// One more sample changes the pixel that it falls on, and no other.
pub proof fn law_samples_change_one_pixel(
    samples: Seq<(u32, u32, u8)>,
    pad_glyphs: bool,
    sample: (u32, u32, u8),
    row: int,
    col: int,
)
    ensures
        ({
            let shift: int = if pad_glyphs {
                1
            } else {
                0
            };
            painted(samples.push(sample), pad_glyphs, row, col) == if row == sample.1 + shift && col
                == sample.0 + shift {
                sample.2
            } else {
                painted(samples, pad_glyphs, row, col)
            }
        }),
{
    assert(samples.push(sample).drop_last() =~= samples);
}

/// Padding is one pixel wide: a pixel of a cell belongs to what is inside it if all its
/// neighbours lie in the cell, and only then.
pub proof fn law_padding_is_one_pixel_wide(cell: Rect<u32>, x: int, y: int)
    requires
        cell.is_padded(),
    ensures
        cell.unpadded_spec().has_pixel(x, y) <==> forall|dx: int, dy: int|
            -1 <= dx <= 1 && -1 <= dy <= 1 ==> #[trigger] cell.has_pixel(x + dx, y + dy),
{
    let inner = cell.unpadded_spec();
    if forall|dx: int, dy: int|
        -1 <= dx <= 1 && -1 <= dy <= 1 ==> #[trigger] cell.has_pixel(x + dx, y + dy) {
        assert(cell.has_pixel(x + -1, y + -1));
        assert(cell.has_pixel(x + 1, y + 1));
    }
}

} // verus!
