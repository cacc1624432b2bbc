//! What a cache holds, what is true of it at all times, and what the parts of an
//! operation do to it.

use crate::collections::moved_to_back;
use crate::geometry::{Point, Rect};
use crate::glyph::{GlyphId, PositionedGlyph};
use crate::glyph_tree::{ascending, inserted, removed, TreeEntry};
use crate::row::{font_glyph_key_spec, GlyphTexInfo, RowView};
use crate::single::{SMALLEST_TOLERANCE, Single};
use vstd::prelude::*;

verus! {

/// What a cache holds.
#[verifier::ext_equal]
pub struct CacheView {
    /// Texture width.
    pub width: u32,
    /// Texture height.
    pub height: u32,
    /// How far scales may differ.
    pub scale_tolerance: Single,
    /// How far offsets may differ.
    pub position_tolerance: Single,
    /// Whether each glyph has a pixel of padding on every side.
    pub pad_glyphs: bool,
    /// The tops of the rows, from the least to the most recently used.
    pub order: Seq<u32>,
    /// The rows, by their tops.
    pub rows: Map<u32, RowView>,
    /// The end of each gap between rows, by its start.
    pub space_end_for_start: Map<u32, u32>,
    /// The start of each gap between rows, by its end.
    pub space_start_for_end: Map<u32, u32>,
    /// The index of the cached glyphs, by font and number.
    pub all_glyphs: Map<u128, Seq<TreeEntry>>,
    /// The glyphs to be cached.
    pub queue: Seq<(usize, PositionedGlyph)>,
}

/// Whether a number is one that a cache works with as a tolerance.
pub open spec fn is_tolerance(number: Single) -> bool {
    SMALLEST_TOLERANCE <= number.bits <= 0x7f80_0000
}

/// Whether one of the glyphs has this key and rank.
pub open spec fn names(infos: Seq<GlyphTexInfo>, key: u128, rank: int) -> bool {
    exists|j: int| #[trigger] names_at(infos, key, rank, j)
}

/// Whether the glyph of this number has this key and rank.
pub open spec fn names_at(infos: Seq<GlyphTexInfo>, key: u128, rank: int, j: int) -> bool {
    &&& 0 <= j < infos.len()
    &&& font_glyph_key_spec(infos[j].font_glyph) == key
    &&& infos[j].scale_offset.rank_spec() == rank
}

/// An index without the entries for some glyphs.
pub open spec fn forgotten(
    all_glyphs: Map<u128, Seq<TreeEntry>>,
    infos: Seq<GlyphTexInfo>,
) -> Map<u128, Seq<TreeEntry>>
    decreases infos.len(),
{
    if infos.len() == 0 {
        all_glyphs
    } else {
        let before = forgotten(all_glyphs, infos.drop_last());
        let key = font_glyph_key_spec(infos.last().font_glyph);
        if before.contains_key(key) {
            before.insert(key, removed(before[key], infos.last().scale_offset))
        } else {
            before
        }
    }
}

/// A cache of these settings without glyphs, in the texture or in the queue.
pub open spec fn empty_cache(
    width: u32,
    height: u32,
    scale_tolerance: Single,
    position_tolerance: Single,
    pad_glyphs: bool,
) -> CacheView {
    CacheView {
        width,
        height,
        scale_tolerance,
        position_tolerance,
        pad_glyphs,
        order: Seq::empty(),
        rows: Map::empty(),
        space_end_for_start: Map::empty().insert(0u32, height),
        space_start_for_end: Map::empty().insert(height, 0u32),
        all_glyphs: Map::empty(),
        queue: Seq::empty(),
    }
}

/// Whether one cell ends where the other starts or before, if both have pixels.
pub open spec fn stand_side_by_side(a: Rect<u32>, b: Rect<u32>) -> bool {
    a.min.y < a.max.y && b.min.y < b.max.y ==> a.max.x <= b.min.x
}

impl CacheView {
    // What is in the cache.

    /// Whether a gap that starts here is at least this high.
    pub open spec fn is_gap(self, start: u32, height: int) -> bool {
        &&& self.space_end_for_start.contains_key(start)
        &&& self.space_end_for_start[start] - start >= height
    }

    /// Whether some gap is at least this high.
    pub open spec fn has_gap(self, height: int) -> bool {
        exists|start: u32| self.is_gap(start, height)
    }

    /// The cached versions of a glyph.
    pub open spec fn tree(self, key: u128) -> Seq<TreeEntry> {
        if self.all_glyphs.contains_key(key) {
            self.all_glyphs[key]
        } else {
            Seq::empty()
        }
    }

    /// Whether a row has room for a glyph of this size.
    pub open spec fn row_fits(self, top: u32, width: int, height: int) -> bool {
        &&& self.rows[top].height >= height
        &&& self.width - self.rows[top].width >= width
    }

    /// The pixels that a glyph takes in the texture: those of its bounding box and,
    /// on every side, one of padding.
    pub open spec fn padded_size(self, glyph: PositionedGlyph) -> (int, int) {
        let bb = glyph.bounding_box->0;
        let padding: int = if self.pad_glyphs {
            2
        } else {
            0
        };
        (bb.max.x - bb.min.x + padding, bb.max.y - bb.min.y + padding)
    }

    /// The texture cell of an entry of the index.
    pub open spec fn info(self, e: TreeEntry) -> GlyphTexInfo {
        self.rows[e.row].glyphs[e.index as int]
    }

    // What is true of a cache at all times.

    /// The list of tops names every row once.
    pub open spec fn order_wf(self) -> bool {
        &&& self.order.no_duplicates()
        &&& forall|top: u32| #[trigger] self.order.contains(top) <==> self.rows.contains_key(top)
    }

    /// A row lies in the texture, and its glyphs lie in it side by side. Glyphs without
    /// height take no pixels and may lie anywhere at its top.
    pub open spec fn row_wf(self, top: u32) -> bool {
        let row = self.rows[top];
        &&& top + row.height <= self.height
        &&& row.width <= self.width
        &&& forall|j: int|
            0 <= j < row.glyphs.len() ==> self.cell_wf(top, (#[trigger] row.glyphs[j]).tex_coords)
        &&& forall|j: int, k: int|
            0 <= j < k < row.glyphs.len() ==> stand_side_by_side(
                (#[trigger] row.glyphs[j]).tex_coords,
                (#[trigger] row.glyphs[k]).tex_coords,
            )
    }

    /// A cell starts at the top of its row and ends within it, and has padding
    /// where glyphs are padded.
    pub open spec fn cell_wf(self, top: u32, cell: Rect<u32>) -> bool {
        let row = self.rows[top];
        &&& cell.min.y == top
        &&& cell.min.y <= cell.max.y <= top + row.height
        &&& cell.min.x <= cell.max.x <= self.width
        &&& cell.min.y < cell.max.y ==> cell.max.x <= row.width
        &&& self.pad_glyphs ==> cell.is_padded()
    }

    /// The two maps name the same gaps, where these have any lines. Such a gap lies in
    /// the texture and no other follows it directly.
    pub open spec fn gaps_wf(self) -> bool {
        &&& forall|start: u32| #[trigger]
            self.space_end_for_start.contains_key(start) ==> {
                let end = self.space_end_for_start[start];
                &&& start <= end <= self.height
                &&& self.space_start_for_end.contains_key(end)
                &&& self.space_start_for_end[end] == start
                &&& start < end ==> !self.space_end_for_start.contains_key(end)
            }
        &&& forall|end: u32| #[trigger]
            self.space_start_for_end.contains_key(end) ==> {
                let start = self.space_start_for_end[end];
                &&& start <= end
                &&& start < end ==> self.space_end_for_start.contains_key(start)
                    && self.space_end_for_start[start] == end
            }
    }

    /// No two rows share a line of pixels.
    pub open spec fn rows_apart(self) -> bool {
        forall|a: u32, b: u32|
            #![trigger self.rows.contains_key(a), self.rows.contains_key(b)]
            self.rows.contains_key(a) && self.rows.contains_key(b) && a < b && self.rows[b].height
                > 0 ==> a + self.rows[a].height <= b
    }

    /// No two gaps share a line of pixels.
    pub open spec fn gaps_apart(self) -> bool {
        forall|a: u32, b: u32|
            #![trigger self.space_end_for_start.contains_key(a), self.space_end_for_start.contains_key(b)]
            self.space_end_for_start.contains_key(a) && self.space_end_for_start.contains_key(b)
                && a < b < self.space_end_for_start[b] ==> self.space_end_for_start[a] <= b
    }

    /// No row shares a line of pixels with a gap, and no gap starts where a row with lines
    /// does.
    pub open spec fn rows_and_gaps_apart(self) -> bool {
        forall|top: u32, start: u32|
            #![trigger self.rows.contains_key(top), self.space_end_for_start.contains_key(start)]
            self.rows.contains_key(top) && self.space_end_for_start.contains_key(start)
                && self.rows[top].height > 0 ==> {
                let end = self.space_end_for_start[start];
                &&& start != top
                &&& start < end ==> top + self.rows[top].height <= start || end <= top
            }
    }

    /// Whether a line of pixels lies in this row.
    pub open spec fn in_row(self, top: u32, y: int) -> bool {
        &&& self.rows.contains_key(top)
        &&& top <= y < top + self.rows[top].height
    }

    /// Whether a line of pixels lies in this gap.
    pub open spec fn in_gap(self, start: u32, y: int) -> bool {
        &&& self.space_end_for_start.contains_key(start)
        &&& start <= y < self.space_end_for_start[start]
    }

    /// Whether a line of pixels lies in a row or in a gap.
    pub open spec fn covers(self, y: int) -> bool {
        ||| exists|top: u32| self.in_row(top, y)
        ||| exists|start: u32| self.in_gap(start, y)
    }

    /// Rows and gaps together fill the texture from top to bottom.
    pub open spec fn tiled(self) -> bool {
        &&& self.rows_apart()
        &&& self.gaps_apart()
        &&& self.rows_and_gaps_apart()
        &&& forall|y: int| 0 <= y < self.height ==> #[trigger] self.covers(y)
    }

    /// A texture without lines is either a row or a gap.
    pub open spec fn flat_wf(self) -> bool {
        self.height == 0 ==> (self.rows.contains_key(0)
            <==> !self.space_end_for_start.contains_key(0))
    }

    /// An entry of the index names a glyph in the texture, of the same font, number
    /// and rank.
    pub open spec fn is_located(self, key: u128, e: TreeEntry) -> bool {
        &&& self.rows.contains_key(e.row)
        &&& e.index < self.rows[e.row].glyphs.len()
        &&& font_glyph_key_spec(self.info(e).font_glyph) == key
        &&& self.info(e).scale_offset.rank_spec() == e.rank()
    }

    /// The index is in order, and all its entries are located.
    pub open spec fn index_wf(self) -> bool {
        &&& forall|key: u128| #[trigger]
            self.all_glyphs.contains_key(key) ==> ascending(self.all_glyphs[key])
        &&& forall|key: u128, e: TreeEntry|
            self.all_glyphs.contains_key(key) && #[trigger] self.all_glyphs[key].contains(e)
                ==> self.is_located(key, e)
    }

    /// All queued glyphs have a shape, and one that can be cached.
    pub open spec fn queue_wf(self) -> bool {
        forall|i: int|
            0 <= i < self.queue.len() ==> (#[trigger] self.queue[i]).1.bounding_box is Some
                && self.queue[i].1.is_drawable()
    }

    /// No tolerance is below the smallest.
    pub open spec fn tolerances_wf(self) -> bool {
        &&& is_tolerance(self.scale_tolerance)
        &&& is_tolerance(self.position_tolerance)
    }

    /// What is true of a cache at all times.
    pub open spec fn wf(self) -> bool {
        &&& self.tolerances_wf()
        &&& self.order_wf()
        &&& forall|top: u32| #[trigger] self.rows.contains_key(top) ==> self.row_wf(top)
        &&& self.gaps_wf()
        &&& self.tiled()
        &&& self.flat_wf()
        &&& self.index_wf()
        &&& self.queue_wf()
    }

    /// Whether two caches have the same texture, the same settings and the same
    /// queue.
    pub open spec fn same_settings(self, other: CacheView) -> bool {
        &&& self.width == other.width
        &&& self.height == other.height
        &&& self.scale_tolerance == other.scale_tolerance
        &&& self.position_tolerance == other.position_tolerance
        &&& self.pad_glyphs == other.pad_glyphs
        &&& self.queue == other.queue
    }

    // What the parts of an operation do.

    /// The cache without its glyphs: a single gap fills the texture.
    pub open spec fn cleared(self) -> CacheView {
        CacheView {
            order: Seq::empty(),
            rows: Map::empty(),
            space_end_for_start: Map::empty().insert(0u32, self.height),
            space_start_for_end: Map::empty().insert(self.height, 0u32),
            all_glyphs: Map::empty(),
            ..self
        }
    }

    /// The cache with one more glyph at the end of the queue, if the glyph has a shape.
    pub open spec fn queued(self, font_id: usize, glyph: PositionedGlyph) -> CacheView {
        if glyph.bounding_box is Some {
            CacheView { queue: self.queue.push((font_id, glyph)), ..self }
        } else {
            self
        }
    }

    /// The cache with a row marked as the most recently used.
    pub open spec fn touched(self, top: u32) -> CacheView {
        CacheView { order: moved_to_back(self.order, top), ..self }
    }

    /// The start of the gap that a row leaves behind: that of the gap above it, if
    /// there is one.
    pub open spec fn merged_start(self, top: u32) -> u32 {
        if self.space_start_for_end.contains_key(top) {
            self.space_start_for_end[top]
        } else {
            top
        }
    }

    /// The end of the gap that a row leaves behind: that of the gap below it, if
    /// there is one.
    pub open spec fn merged_end(self, bottom: u32) -> u32 {
        if self.space_end_for_start.contains_key(bottom) {
            self.space_end_for_start[bottom]
        } else {
            bottom
        }
    }

    /// The cache with the lines from `top` to `bottom` joined to the gaps next to
    /// them.
    pub open spec fn released(self, top: u32, bottom: u32) -> CacheView {
        let start = self.merged_start(top);
        let end = self.merged_end(bottom);
        CacheView {
            space_end_for_start: self.space_end_for_start.remove(bottom).insert(start, end),
            space_start_for_end: self.space_start_for_end.remove(top).insert(end, start),
            ..self
        }
    }

    /// The cache without its least recently used row: the glyphs of the row are no
    /// longer found, and its lines are free.
    pub open spec fn evicted(self) -> CacheView {
        let top = self.order[0];
        let row = self.rows[top];
        CacheView {
            order: self.order.drop_first(),
            rows: self.rows.remove(top),
            all_glyphs: forgotten(self.all_glyphs, row.glyphs),
            ..self
        }.released(top, (top + row.height) as u32)
    }

    /// The start of the gap that evicting the least recently used row leaves.
    pub open spec fn evicted_gap(self) -> u32 {
        self.merged_start(self.order[0])
    }

    /// The cache after evicting rows, the least recently used first, until one of
    /// them leaves a gap of this height; and where that gap starts. It is nowhere
    /// if the next row to go is in use.
    pub open spec fn made_room(self, in_use: Set<u32>, height: int) -> (CacheView, Option<u32>)
        decreases self.order.len(),
    {
        if self.order.len() == 0 || in_use.contains(self.order[0]) {
            (self, None)
        } else if self.evicted().is_gap(self.evicted_gap(), height) {
            (self.evicted(), Some(self.evicted_gap()))
        } else {
            self.evicted().made_room(in_use, height)
        }
    }

    /// The glyphs that a new row starts with: those of the row without lines that it
    /// replaces, if there is one.
    pub open spec fn taken_over(self, start: u32) -> Seq<GlyphTexInfo> {
        if self.rows.contains_key(start) {
            self.rows[start].glyphs
        } else {
            Seq::empty()
        }
    }

    /// The cache with a row at the start of a gap, all of whose width is free.
    pub open spec fn opened(self, start: u32, height: u32) -> CacheView {
        let end = self.space_end_for_start[start];
        let rest = (start + height) as u32;
        let glyphs = self.taken_over(start);
        CacheView {
            order: if self.rows.contains_key(start) {
                moved_to_back(self.order, start)
            } else {
                self.order.push(start)
            },
            rows: self.rows.insert(start, RowView { height, width: 0, glyphs }),
            space_end_for_start: if rest == end {
                self.space_end_for_start.remove(start)
            } else {
                self.space_end_for_start.remove(start).insert(rest, end)
            },
            space_start_for_end: if rest == end {
                self.space_start_for_end.remove(end)
            } else {
                self.space_start_for_end.insert(end, rest)
            },
            ..self
        }
    }

    /// The cell that a glyph of this size gets in a row: the first free pixels from
    /// the left.
    pub open spec fn cell(self, top: u32, width: u32, height: u32) -> Rect<u32> {
        let used = self.rows[top].width;
        Rect {
            min: Point { x: used, y: top },
            max: Point { x: (used + width) as u32, y: (top + height) as u32 },
        }
    }

    /// The cache with a glyph of this size in a row, which becomes the most recently
    /// used.
    pub open spec fn placed(
        self,
        top: u32,
        width: u32,
        height: u32,
        font_glyph: (usize, GlyphId),
        glyph: PositionedGlyph,
    ) -> CacheView {
        let row = self.rows[top];
        let key = font_glyph_key_spec(font_glyph);
        let info = GlyphTexInfo {
            font_glyph,
            scale_offset: glyph.spec(),
            tex_coords: self.cell(top, width, height),
        };
        CacheView {
            order: moved_to_back(self.order, top),
            rows: self.rows.insert(
                top,
                RowView {
                    height: row.height,
                    width: (row.width + width) as u32,
                    glyphs: row.glyphs.push(info),
                },
            ),
            all_glyphs: self.all_glyphs.insert(
                key,
                inserted(self.tree(key), glyph.spec(), top, row.glyphs.len() as usize),
            ),
            ..self
        }
    }
}

} // verus!
