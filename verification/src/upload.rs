//! Pixel data for the texture.

use crate::byte_array::ByteArray2d;
use crate::geometry::Rect;
use crate::glyph::PositionedGlyph;
use vstd::prelude::*;

verus! {

/// A glyph to be drawn into the texture.
#[derive(Clone, Copy, Debug, PartialEq, Eq)]
pub struct Upload {
    /// The pixels to fill, padding included.
    pub rect: Rect<u32>,
    /// The font of the glyph.
    pub font_id: usize,
    /// The glyph to draw.
    pub glyph: PositionedGlyph,
}

/// How far a glyph is drawn from the top left corner of its cell.
pub open spec fn padding(pad_glyphs: bool) -> int {
    if pad_glyphs {
        1
    } else {
        0
    }
}

/// What stands in a row and column of a cell after drawing samples of column, row
/// and value: the value of the last sample that falls there, or zero.
pub open spec fn painted(
    samples: Seq<(u32, u32, u8)>,
    pad_glyphs: bool,
    row: int,
    col: int,
) -> u8
    decreases samples.len(),
{
    if samples.len() == 0 {
        0
    } else {
        let (x, y, v) = samples.last();
        if y + padding(pad_glyphs) == row && x + padding(pad_glyphs) == col {
            v
        } else {
            painted(samples.drop_last(), pad_glyphs, row, col)
        }
    }
}

/// Whether no later sample falls on the pixel of this one.
pub open spec fn is_last_there(samples: Seq<(u32, u32, u8)>, i: int) -> bool {
    forall|j: int|
        i < j < samples.len() ==> (#[trigger] samples[j]).0 != samples[i].0 || samples[j].1
            != samples[i].1
}

/// Whether some sample, moved right and down by `shift` pixels, falls on a pixel.
pub open spec fn is_touched(
    samples: Seq<(u32, u32, u8)>,
    shift: int,
    row: int,
    col: int,
) -> bool {
    exists|i: int|
        0 <= i < samples.len() && (#[trigger] samples[i]).1 + shift == row && samples[i].0 + shift
            == col
}

/// A sample after which none falls on its pixel is what stands there: with padding, one
/// pixel right and down of its own column and row.
pub proof fn lemma_last_sample_shows(samples: Seq<(u32, u32, u8)>, pad_glyphs: bool, i: int)
    requires
        0 <= i < samples.len(),
        is_last_there(samples, i),
    ensures
        ({
            let shift: int = if pad_glyphs {
                1
            } else {
                0
            };
            let (x, y, v) = samples[i];
            painted(samples, pad_glyphs, y + shift, x + shift) == v
        }),
    decreases samples.len(),
{
    if i < samples.len() - 1 {
        let front = samples.drop_last();
        assert(samples.last() == samples[samples.len() - 1]);
        assert forall|j: int| i < j < front.len() implies (#[trigger] front[j]).0 != front[i].0
            || front[j].1 != front[i].1 by {
            assert(front[j] == samples[j]);
        }
        lemma_last_sample_shows(front, pad_glyphs, i);
    }
}

/// Where no sample falls there is nothing.
pub proof fn lemma_untouched_is_blank(
    samples: Seq<(u32, u32, u8)>,
    pad_glyphs: bool,
    row: int,
    col: int,
)
    requires
        !is_touched(
            samples,
            if pad_glyphs {
                1
            } else {
                0
            },
            row,
            col,
        ),
    ensures
        painted(samples, pad_glyphs, row, col) == 0,
    decreases samples.len(),
{
    if samples.len() > 0 {
        let front = samples.drop_last();
        let shift: int = if pad_glyphs {
            1
        } else {
            0
        };
        assert(samples.last() == samples[samples.len() - 1]);
        if is_touched(front, shift, row, col) {
            let i = choose|i: int|
                0 <= i < front.len() && (#[trigger] front[i]).1 + shift == row && front[i].0 + shift
                    == col;
            assert(samples[i] == front[i]);
        }
        lemma_untouched_is_blank(front, pad_glyphs, row, col);
    }
}

/// Different rows and columns of an array stand at different places.
pub proof fn lemma_places_differ(cols: int, r1: int, c1: int, r2: int, c2: int)
    by (nonlinear_arith)
    requires
        0 <= c1 < cols,
        0 <= c2 < cols,
        r1 * cols + c1 == r2 * cols + c2,
    ensures
        r1 == r2,
        c1 == c2,
{
}

impl Upload {
    /// The number of rows of the cell.
    pub open spec fn rows(self) -> int {
        self.rect.max.y - self.rect.min.y
    }

    /// The number of columns of the cell.
    pub open spec fn cols(self) -> int {
        self.rect.max.x - self.rect.min.x
    }

    /// Whether the pixels of the cell can be held in memory.
    pub open spec fn is_drawable(self) -> bool {
        &&& 0 <= self.rows()
        &&& 0 <= self.cols()
        &&& self.rows() * self.cols() <= isize::MAX
    }

    /// Whether a sample falls into the cell.
    pub open spec fn has_sample(self, pad_glyphs: bool, sample: (u32, u32, u8)) -> bool {
        &&& sample.0 + padding(pad_glyphs) < self.cols()
        &&& sample.1 + padding(pad_glyphs) < self.rows()
    }

    /// Draws a glyph, given as samples of column, row and value, into the pixels of
    /// its cell.
    pub fn draw(&self, pad_glyphs: bool, samples: &[(u32, u32, u8)]) -> (pixels: ByteArray2d)
        requires
            self.is_drawable(),
            forall|i: int|
                0 <= i < samples@.len() ==> self.has_sample(pad_glyphs, #[trigger] samples@[i]),
        ensures
            pixels.wf(),
            pixels.rows() == self.rows(),
            pixels.cols() == self.cols(),
            pixels.rows() == self.rect.max.y - self.rect.min.y,
            pixels.cols() == self.rect.max.x - self.rect.min.x,
            forall|row: int, col: int|
                0 <= row < self.rows() && 0 <= col < self.cols() ==> #[trigger] pixels.at(row, col)
                    == painted(samples@, pad_glyphs, row, col),
            forall|i: int|
                0 <= i < samples@.len() && is_last_there(samples@, i) ==> {
                    let shift: int = if pad_glyphs {
                        1
                    } else {
                        0
                    };
                    let (x, y, v) = #[trigger] samples@[i];
                    pixels@[(y + shift) * (self.rect.max.x - self.rect.min.x) + x + shift] == v
                },
            forall|row: int, col: int|
                0 <= row < self.rows() && 0 <= col < self.cols() && !is_touched(
                    samples@,
                    if pad_glyphs {
                        1
                    } else {
                        0
                    },
                    row,
                    col,
                ) ==> #[trigger] pixels.at(row, col) == 0,
    {
        let height: u32 = self.rect.max.y - self.rect.min.y;
        let width: u32 = self.rect.max.x - self.rect.min.x;
        let mut pixels = ByteArray2d::zeros(height as usize, width as usize);
        let shift: usize = if pad_glyphs {
            1
        } else {
            0
        };
        assert forall|row: int, col: int|
            0 <= row < self.rows() && 0 <= col < self.cols() implies #[trigger] pixels.at(row, col)
            == 0 by {
            lemma_place_in_range(self.rows(), self.cols(), row, col);
        }
        let mut i: usize = 0;
        while i < samples.len()
            invariant
                i <= samples@.len(),
                shift == padding(pad_glyphs),
                pixels.wf(),
                pixels.rows() == self.rows(),
                pixels.cols() == self.cols(),
                self.rows() <= u32::MAX,
                self.cols() <= u32::MAX,
                forall|i: int|
                    0 <= i < samples@.len() ==> self.has_sample(pad_glyphs, #[trigger] samples@[i]),
                forall|row: int, col: int|
                    0 <= row < self.rows() && 0 <= col < self.cols() ==> #[trigger] pixels.at(
                        row,
                        col,
                    ) == painted(samples@.take(i as int), pad_glyphs, row, col),
            decreases samples@.len() - i,
        {
            let (x, y, v) = samples[i];
            assert(self.has_sample(pad_glyphs, samples@[i as int]));
            let ghost before = pixels;
            let row: usize = y as usize + shift;
            let col: usize = x as usize + shift;
            *pixels.index_mut((row, col)) = v;
            proof {
                let drawn = samples@.take(i + 1);
                assert(drawn.drop_last() =~= samples@.take(i as int));
                lemma_place_in_range(self.rows(), self.cols(), row as int, col as int);
                assert forall|r: int, c: int|
                    0 <= r < self.rows() && 0 <= c < self.cols() implies #[trigger] pixels.at(r, c)
                    == painted(drawn, pad_glyphs, r, c) by {
                    assert(before.at(r, c) == painted(samples@.take(i as int), pad_glyphs, r, c));
                    lemma_place_in_range(self.rows(), self.cols(), r, c);
                    if pixels.place(r, c) == pixels.place(row as int, col as int) {
                        lemma_places_differ(self.cols(), r, c, row as int, col as int);
                    }
                }
            }
            i = i + 1;
        }
        assert(samples@.take(i as int) =~= samples@);
        proof {
            let shift: int = if pad_glyphs {
                1
            } else {
                0
            };
            assert forall|i: int| 0 <= i < samples@.len() && is_last_there(samples@, i) implies {
                let (x, y, v) = #[trigger] samples@[i];
                pixels@[(y + shift) * (self.rect.max.x - self.rect.min.x) + x + shift] == v
            } by {
                let (x, y, v) = samples@[i];
                assert(self.has_sample(pad_glyphs, samples@[i]));
                lemma_last_sample_shows(samples@, pad_glyphs, i);
                assert(pixels.at(y + shift, x + shift) == v);
                assert(pixels.place(y + shift, x + shift) == (y + shift) * (self.rect.max.x
                    - self.rect.min.x) + x + shift);
            }
            assert forall|row: int, col: int|
                0 <= row < self.rows() && 0 <= col < self.cols() && !is_touched(
                    samples@,
                    shift,
                    row,
                    col,
                ) implies #[trigger] pixels.at(row, col) == 0 by {
                lemma_untouched_is_blank(samples@, pad_glyphs, row, col);
            }
        }
        pixels
    }
}

/// The rows and columns of an array stand at places within it.
pub proof fn lemma_place_in_range(rows: int, cols: int, row: int, col: int)
    by (nonlinear_arith)
    requires
        0 <= row < rows,
        0 <= col < cols,
    ensures
        0 <= row * cols + col < rows * cols,
{
}

} // verus!
