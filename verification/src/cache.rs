//! The cache.

use crate::arithmetic::{Arithmetic, Comparison};
use crate::caching::{
    adds, are_answers, caches_queue, deals_with, ends_caching, finds_row, if_matching, is_pass,
    is_run, is_run_of_pass, is_stuck, lower_neighbour, matching_row, newest_fit, readies_row,
    refuses, start_of_pass, upper_neighbour, with_queue, Answers, Moment, PassEnd,
};
use crate::collections::{
    all_entries, clear_rows, front_row, get_entry, insert_entry, insert_row, new_rows,
    pop_front_row, refresh_row, remove_entry, row_at, row_contents, row_order, rows_from_back,
    sort_tallest_first,
};
use crate::error::{CacheReadErr, CacheWriteErr};
use crate::geometry::{point, Rect};
use crate::glyph::{GlyphId, PositionedGlyph};
use crate::glyph_tree::{
    ascending, below, lemma_below, lemma_below_is, removed, GlyphTree, TreeEntry,
};
use crate::model::{empty_cache, forgotten, CacheView};
use crate::passes::{has_room, lemma_newest_row_with_room, lemma_sorts_queue};
use crate::reading::{
    downward, glyph_rect, is_answer, is_nearer, none_before, read_result, reads, search_ends,
    upward, DrawnBounds, TextureMatch,
};
use crate::row::{font_glyph_key, font_glyph_key_spec, GlyphTexInfo, Row, RowView};
use crate::scale_offset::GlyphScaleOffset;
use crate::single::{DEFAULT_TOLERANCE, SMALLEST_TOLERANCE, Single};
use crate::upload::Upload;
use fnv::FnvBuildHasher;
use linked_hash_map::LinkedHashMap;
use std::collections::{HashMap, HashSet};
use vstd::prelude::*;

verus! {

broadcast use vstd::std_specs::hash::group_hash_axioms;

/// An implementation of a dynamic GPU glyph cache. See the crate documentation
/// for more information.
pub struct Cache {
    scale_tolerance: Single,
    position_tolerance: Single,
    width: u32,
    height: u32,
    rows: LinkedHashMap<u32, Row, FnvBuildHasher>,
    /// Mapping of row gaps bottom -> top
    space_start_for_end: HashMap<u32, u32, FnvBuildHasher>,
    /// Mapping of row gaps top -> bottom
    space_end_for_start: HashMap<u32, u32, FnvBuildHasher>,
    queue: Vec<(usize, PositionedGlyph)>,
    all_glyphs: HashMap<u128, GlyphTree, FnvBuildHasher>,
    pad_glyphs: bool,
}

/// What each row holds.
pub open spec fn row_views(rows: Map<u32, Row>) -> Map<u32, RowView> {
    rows.map_values(|row: Row| row@)
}

/// The entries of each tree.
pub open spec fn tree_views(trees: Map<u128, GlyphTree>) -> Map<u128, Seq<TreeEntry>> {
    trees.map_values(|tree: GlyphTree| tree@)
}

/// The view of a cache: what it holds.
impl View for Cache {
    type V = CacheView;

    closed spec fn view(&self) -> CacheView {
        CacheView {
            width: self.width,
            height: self.height,
            scale_tolerance: self.scale_tolerance,
            position_tolerance: self.position_tolerance,
            pad_glyphs: self.pad_glyphs,
            order: row_order(self.rows),
            rows: row_views(row_contents(self.rows)),
            space_end_for_start: self.space_end_for_start@,
            space_start_for_end: self.space_start_for_end@,
            all_glyphs: tree_views(self.all_glyphs@),
            queue: self.queue@,
        }
    }
}

/// Builder for a `Cache`.
#[derive(Debug, Clone)]
pub struct CacheBuilder {
    /// Along with `height` specifies the dimensions of the 2D texture that will
    /// hold the cache contents on the GPU.
    ///
    /// This must match the dimensions of the actual texture used, otherwise
    /// `cache_queued` will try to cache into coordinates outside the bounds of
    /// the texture.
    pub width: u32,
    /// Along with `width` specifies the dimensions of the 2D texture that will
    /// hold the cache contents on the GPU.
    ///
    /// This must match the dimensions of the actual texture used, otherwise
    /// `cache_queued` will try to cache into coordinates outside the bounds of
    /// the texture.
    pub height: u32,
    /// Specifies the tolerances (maximum allowed difference) for judging
    /// whether an existing glyph in the cache is close enough to the
    /// requested glyph in scale to be used in its place. Due to floating
    /// point inaccuracies that can affect user code it is not recommended
    /// to set these parameters too close to zero as effectively identical
    /// glyphs could end up duplicated in the cache.
    ///
    /// Both `scale_tolerance` and `position_tolerance` are measured in pixels.
    ///
    /// A typical application will produce results with no perceptible
    /// inaccuracies with `scale_tolerance` and `position_tolerance` set to
    /// 0.1. Depending on the target DPI higher tolerance may be acceptable.
    pub scale_tolerance: Single,
    /// Specifies the tolerances (maximum allowed difference) for judging
    /// whether an existing glyph in the cache is close enough to the requested
    /// glyph in subpixel offset to be used in its place.
    ///
    /// Note that since `position_tolerance` is a tolerance of subpixel
    /// offsets, setting it to 1.0 or higher is effectively a "don't care"
    /// option.
    pub position_tolerance: Single,
    /// Pack glyphs in texture with a padding of a single zero alpha pixel to
    /// avoid bleeding from interpolated shader texture lookups near edges.
    ///
    /// If glyphs are never transformed this may be set to `false` to slightly
    /// improve the glyph packing.
    pub pad_glyphs: bool,
}

impl Default for CacheBuilder {
    fn default() -> (builder: Self)
        ensures
            builder == (CacheBuilder {
                width: 256,
                height: 256,
                scale_tolerance: Single { bits: DEFAULT_TOLERANCE },
                position_tolerance: Single { bits: DEFAULT_TOLERANCE },
                pad_glyphs: true,
            }),
    {
        CacheBuilder {
            width: 256,
            height: 256,
            scale_tolerance: Single { bits: DEFAULT_TOLERANCE },
            position_tolerance: Single { bits: DEFAULT_TOLERANCE },
            pad_glyphs: true,
        }
    }
}

impl CacheBuilder {
    /// Constructs a new cache. Note that this is just the CPU side of the
    /// cache. The GPU texture is managed by the user.
    ///
    /// A tolerance below the smallest is raised to it.
    pub fn build(self) -> (cache: Cache)
        requires
            self.scale_tolerance.is_positive_spec(),
            self.position_tolerance.is_positive_spec(),
        ensures
            cache@ == empty_cache(
                self.width,
                self.height,
                self.scale_tolerance.max_spec(Single { bits: SMALLEST_TOLERANCE }),
                self.position_tolerance.max_spec(Single { bits: SMALLEST_TOLERANCE }),
                self.pad_glyphs,
            ),
            cache.wf(),
    {
        let mut space_start_for_end: HashMap<u32, u32, FnvBuildHasher> = HashMap::default();
        insert_entry(&mut space_start_for_end, self.height, 0);
        let mut space_end_for_start: HashMap<u32, u32, FnvBuildHasher> = HashMap::default();
        insert_entry(&mut space_end_for_start, 0, self.height);
        let cache = Cache {
            scale_tolerance: self.scale_tolerance.max(Single { bits: SMALLEST_TOLERANCE }),
            position_tolerance: self.position_tolerance.max(Single { bits: SMALLEST_TOLERANCE }),
            width: self.width,
            height: self.height,
            rows: new_rows(),
            space_start_for_end,
            space_end_for_start,
            queue: Vec::new(),
            all_glyphs: HashMap::default(),
            pad_glyphs: self.pad_glyphs,
        };
        proof {
            assert(cache@.rows =~= Map::empty());
            assert(cache@.all_glyphs =~= Map::empty());
            assert(cache@.cleared() =~= cache@);
            cache@.lemma_cleared();
        }
        cache
    }
}

/// Takes the entries for some glyphs out of an index.
fn forget(all_glyphs: &mut HashMap<u128, GlyphTree, FnvBuildHasher>, infos: &Vec<GlyphTexInfo>)
    requires
        forall|key: u128| #[trigger]
            old(all_glyphs)@.contains_key(key) ==> ascending(old(all_glyphs)@[key]@),
    ensures
        tree_views(final(all_glyphs)@) == forgotten(tree_views(old(all_glyphs)@), infos@),
        forall|key: u128| #[trigger]
            final(all_glyphs)@.contains_key(key) ==> ascending(final(all_glyphs)@[key]@),
{
    let ghost before = tree_views(all_glyphs@);
    let mut i: usize = 0;
    while i < infos.len()
        invariant
            i <= infos@.len(),
            tree_views(all_glyphs@) == forgotten(before, infos@.take(i as int)),
            forall|key: u128| #[trigger]
                all_glyphs@.contains_key(key) ==> ascending(all_glyphs@[key]@),
        decreases infos@.len() - i,
    {
        let info = infos[i];
        let key: u128 = font_glyph_key(info.font_glyph);
        let ghost trees = tree_views(all_glyphs@);
        match remove_entry(all_glyphs, &key) {
            Some(mut tree) => {
                tree.remove(&info.scale_offset);
                insert_entry(all_glyphs, key, tree);
                assert(tree_views(all_glyphs@) =~= trees.insert(
                    key,
                    removed(trees[key], info.scale_offset),
                ));
            },
            None => {
                assert(tree_views(all_glyphs@) =~= trees);
            },
        }
        assert(infos@.take(i + 1).drop_last() =~= infos@.take(i as int));
        i = i + 1;
    }
    assert(infos@.take(i as int) =~= infos@);
}

/// Another queue of the same glyphs.
fn copy_of_queue(queue: &Vec<(usize, PositionedGlyph)>) -> (copy: Vec<(usize, PositionedGlyph)>)
    ensures
        copy@ == queue@,
{
    let mut copy: Vec<(usize, PositionedGlyph)> = Vec::with_capacity(queue.len());
    let mut i: usize = 0;
    while i < queue.len()
        invariant
            i <= queue@.len(),
            copy@ == queue@.take(i as int),
        decreases queue@.len() - i,
    {
        copy.push(queue[i]);
        assert(copy@ =~= queue@.take(i + 1));
        i = i + 1;
    }
    assert(copy@ =~= queue@);
    copy
}

impl Cache {
    /// What is true of a cache at all times.
    pub open spec fn wf(&self) -> bool {
        self@.wf()
    }

    /// Legacy `Cache` construction, use `CacheBuilder` for more options. Glyphs are
    /// not padded.
    pub fn new(
        width: u32,
        height: u32,
        scale_tolerance: Single,
        position_tolerance: Single,
    ) -> (cache: Cache)
        requires
            scale_tolerance.is_positive_spec(),
            position_tolerance.is_positive_spec(),
        ensures
            cache@ == empty_cache(
                width,
                height,
                scale_tolerance.max_spec(Single { bits: SMALLEST_TOLERANCE }),
                position_tolerance.max_spec(Single { bits: SMALLEST_TOLERANCE }),
                false,
            ),
            cache.wf(),
    {
        CacheBuilder { width, height, scale_tolerance, position_tolerance, pad_glyphs: false }.build()
    }

    /// Looks for a cached version of a glyph that is close enough.
    ///
    /// The search is conservative: there may be a close enough glyph that is not
    /// found. One of the same scale and offset is.
    #[verifier::rlimit(30)]
    fn cached_row<S, Q, A>(
        &self,
        font_id: usize,
        glyph: &PositionedGlyph,
        arithmetic: &Arithmetic<S, Q, A>,
    ) -> (found: Option<u32>) where
        S: Fn(Single, Single) -> Single,
        Q: Fn(Single, Single) -> Single,
        A: Fn(Single, Single) -> Single,

        requires
            self.wf(),
            arithmetic.is_total(),
        ensures
            finds_row(self@, (font_id, *glyph), arithmetic.comparison(), found),
            found is Some ==> self@.rows.contains_key(found->0),
    {
        let spec = GlyphScaleOffset::new(glyph.scale, glyph.offset);
        let key: u128 = font_glyph_key((font_id, glyph.id()));
        let ghost seq = self@.tree(key);
        let mut lower: Option<TreeEntry> = None;
        let mut upper: Option<TreeEntry> = None;
        let ghost mut answers = Answers {
            lower: false,
            upper: false,
            lower_distance: spec.scale.0,
            upper_distance: spec.scale.0,
        };
        match get_entry(&self.all_glyphs, &key) {
            Some(tree) => {
                assert(tree@ == seq);
                assert(self@.all_glyphs.contains_key(key));
                let rank: u128 = spec.rank();
                let upto: usize = tree.count_below(rank + 1);
                if upto > 0 {
                    let entry = tree.get(upto - 1);
                    assert(self@.all_glyphs[key].contains(entry));
                    let answer = spec.matches(
                        &entry.spec,
                        self.scale_tolerance,
                        self.position_tolerance,
                        &arithmetic.difference,
                    );
                    if answer {
                        lower = Some(entry);
                    }
                    proof {
                        answers = Answers { lower: answer, ..answers };
                    }
                }
                let from: usize = tree.count_below(rank);
                if from < tree.len() {
                    let entry = tree.get(from);
                    assert(self@.all_glyphs[key].contains(entry));
                    let answer = spec.matches(
                        &entry.spec,
                        self.scale_tolerance,
                        self.position_tolerance,
                        &arithmetic.difference,
                    );
                    if answer {
                        upper = Some(entry);
                    }
                    proof {
                        answers = Answers { upper: answer, ..answers };
                    }
                }
            },
            None => {
                proof {
                    lemma_below_is(seq, spec.rank_spec(), 0);
                    lemma_below_is(seq, spec.rank_spec() + 1, 0);
                }
            },
        }
        assert(lower == if_matching(lower_neighbour(seq, spec), answers.lower));
        assert(upper == if_matching(upper_neighbour(seq, spec), answers.upper));
        let found: Option<u32> = match (lower, upper) {
            (None, None) => None,
            (None, Some(u)) => Some(u.row),
            (Some(l), None) => Some(l.row),
            (Some(l), Some(u)) => if l.row == u.row {
                Some(l.row)
            } else {
                let l_dist = l.spec.match_distance(
                    &spec,
                    self.scale_tolerance,
                    self.position_tolerance,
                    &arithmetic.difference,
                    &arithmetic.quotient,
                    &arithmetic.sum,
                );
                let u_dist = u.spec.match_distance(
                    &spec,
                    self.scale_tolerance,
                    self.position_tolerance,
                    &arithmetic.difference,
                    &arithmetic.quotient,
                    &arithmetic.sum,
                );
                proof {
                    answers = Answers { lower_distance: l_dist, upper_distance: u_dist, ..answers };
                }
                if l_dist.less_than(u_dist) {
                    Some(l.row)
                } else {
                    Some(u.row)
                }
            },
        };
        assert(are_answers(self@, seq, spec, arithmetic.comparison(), answers));
        assert(found == matching_row(seq, spec, answers));
        found
    }

    /// The most recently used row with room for a glyph of this size.
    fn find_row(&self, width: u32, height: u32) -> (found: Option<u32>)
        requires
            self.wf(),
        ensures
            found == newest_fit(self@, self@.order, width as int, height as int),
            found is Some ==> self@.rows.contains_key(found->0) && self@.row_fits(
                found->0,
                width as int,
                height as int,
            ),
            match found {
                Some(top) => exists|i: int|
                    {
                        &&& 0 <= i < self@.order.len()
                        &&& #[trigger] self@.order[i] == top
                        &&& has_room(self@, top, width as int, height as int)
                        &&& forall|j: int|
                            i < j < self@.order.len() ==> !has_room(
                                self@,
                                #[trigger] self@.order[j],
                                width as int,
                                height as int,
                            )
                    },
                None => forall|t: u32| !#[trigger] has_room(self@, t, width as int, height as int),
            },
    {
        let entries = rows_from_back(&self.rows);
        let ghost order = self@.order;
        let mut i: usize = 0;
        assert(order.take(order.len() - i) =~= order);
        while i < entries.len()
            invariant
                self.wf(),
                order == self@.order,
                i <= entries@.len(),
                entries@.len() == order.len(),
                forall|i: int|
                    0 <= i < entries@.len() ==> (#[trigger] entries@[i]).0 == order[entries@.len()
                        - 1 - i] && *entries@[i].1 == row_contents(self.rows)[entries@[i].0],
                newest_fit(self@, order, width as int, height as int) == newest_fit(
                    self@,
                    order.take(order.len() - i),
                    width as int,
                    height as int,
                ),
            decreases entries@.len() - i,
        {
            let (top, row) = entries[i];
            proof {
                let rest = order.take(order.len() - i);
                assert(rest.last() == top);
                assert(rest.drop_last() =~= order.take(order.len() - i - 1));
                assert(order.contains(top));
                assert(self@.rows.contains_key(top));
                assert(self@.rows[top] == row@);
                assert(self@.row_wf(top));
            }
            if row.height >= height && self.width - row.width >= width {
                proof {
                    lemma_newest_row_with_room(self@, order, width as int, height as int);
                }
                return Some(top);
            }
            i = i + 1;
        }
        assert(order.take(order.len() - i).len() == 0);
        proof {
            lemma_newest_row_with_room(self@, order, width as int, height as int);
        }
        assert forall|t: u32| !#[trigger] has_room(self@, t, width as int, height as int) by {
            if has_room(self@, t, width as int, height as int) {
                assert(order.contains(t));
                let j = choose|j: int| 0 <= j < order.len() && order[j] == t;
                assert(!has_room(self@, order[j], width as int, height as int));
            }
        }
        None
    }

    /// Some gap of at least this height.
    fn find_gap(&self, height: u32) -> (gap: Option<(u32, u32)>)
        requires
            self.wf(),
        ensures
            match gap {
                Some((start, end)) => self@.is_gap(start, height as int)
                    && self@.space_end_for_start[start] == end,
                None => !self@.has_gap(height as int),
            },
    {
        let entries = all_entries(&self.space_end_for_start);
        let mut i: usize = 0;
        while i < entries.len()
            invariant
                self.wf(),
                i <= entries@.len(),
                forall|i: int|
                    0 <= i < entries@.len() ==> self@.space_end_for_start.contains_key(
                        (#[trigger] entries@[i]).0,
                    ) && self@.space_end_for_start[entries@[i].0] == entries@[i].1,
                forall|key: u32| #[trigger]
                    self@.space_end_for_start.contains_key(key) ==> entries@.contains(
                        (key, self@.space_end_for_start[key]),
                    ),
                forall|j: int|
                    0 <= j < i ==> (#[trigger] entries@[j]).1 - entries@[j].0 < height,
            decreases entries@.len() - i,
        {
            let (start, end) = entries[i];
            assert(self@.space_end_for_start.contains_key(start));
            if end - start >= height {
                return Some((start, end));
            }
            i = i + 1;
        }
        assert forall|start: u32| !self@.is_gap(start, height as int) by {
            if self@.space_end_for_start.contains_key(start) {
                let entry = (start, self@.space_end_for_start[start]);
                assert(entries@.contains(entry));
                let j = choose|j: int| 0 <= j < entries@.len() && entries@[j] == entry;
                assert(entries@[j].1 - entries@[j].0 < height);
            }
        }
        None
    }

    /// Joins the lines from `top` to `bottom` to the gaps next to them.
    fn release(&mut self, top: u32, bottom: u32) -> (gap: (u32, u32))
        ensures
            final(self)@ == old(self)@.released(top, bottom),
            gap.0 == old(self)@.merged_start(top),
            gap.1 == old(self)@.merged_end(bottom),
    {
        let mut new_start: u32 = top;
        let mut new_end: u32 = bottom;
        if let Some(end) = remove_entry(&mut self.space_end_for_start, &bottom) {
            new_end = end;
        }
        if let Some(start) = remove_entry(&mut self.space_start_for_end, &top) {
            new_start = start;
        }
        insert_entry(&mut self.space_start_for_end, new_end, new_start);
        insert_entry(&mut self.space_end_for_start, new_start, new_end);
        (new_start, new_end)
    }

    /// Evicts the least recently used row, and returns the gap that it leaves.
    fn evict_front(&mut self) -> (gap: (u32, u32))
        requires
            old(self).wf(),
            old(self)@.order.len() > 0,
        ensures
            final(self)@ == old(self)@.evicted(),
            final(self).wf(),
            gap.0 == old(self)@.evicted_gap(),
            gap.1 == final(self)@.space_end_for_start[gap.0],
            gap.0 <= gap.1,
    {
        let ghost before = self@;
        proof {
            before.lemma_evicted();
            assert(before.order.contains(before.order[0]));
            assert(before.row_wf(before.order[0]));
        }
        match pop_front_row(&mut self.rows) {
            Some((top, row)) => {
                assert forall|key: u128| #[trigger]
                    self.all_glyphs@.contains_key(key) implies ascending(
                    self.all_glyphs@[key]@,
                ) by {
                    assert(before.all_glyphs.contains_key(key));
                }
                assert(row@ == before.rows[top]);
                forget(&mut self.all_glyphs, &row.glyphs);
                proof {
                    assert(self@.rows =~= before.rows.remove(top));
                    assert(self@ =~= CacheView {
                        order: before.order.drop_first(),
                        rows: before.rows.remove(top),
                        all_glyphs: forgotten(before.all_glyphs, row@.glyphs),
                        ..before
                    });
                }
                let gap = self.release(top, top + row.height);
                assert(self@ == before.evicted());
                assert(self@.space_end_for_start.contains_key(gap.0));
                gap
            },
            None => (0, 0),
        }
    }

    /// Evicts rows, the least recently used first, until one of them leaves a gap of
    /// at least this height. Stops in front of a row that is in use.
    fn make_room(&mut self, in_use: &HashSet<u32>, height: u32) -> (gap: Option<(u32, u32)>)
        requires
            old(self).wf(),
        ensures
            final(self).wf(),
            final(self)@ == old(self)@.made_room(in_use@, height as int).0,
            match (gap, old(self)@.made_room(in_use@, height as int).1) {
                (Some((start, end)), Some(s)) => start == s && end
                    == final(self)@.space_end_for_start[start],
                (None, None) => true,
                _ => false,
            },
    {
        let ghost before = self@;
        loop
            invariant
                self.wf(),
                before == old(self)@,
                before.made_room(in_use@, height as int) == self@.made_room(
                    in_use@,
                    height as int,
                ),
            decreases self@.order.len(),
        {
            match front_row(&self.rows) {
                Some((top, _)) => {
                    if in_use.contains(top) {
                        return None;
                    }
                },
                None => {
                    return None;
                },
            }
            let ghost now = self@;
            let (start, end) = self.evict_front();
            proof {
                now.lemma_evicted();
            }
            if end - start >= height {
                return Some((start, end));
            }
        }
    }

    /// Opens a row at the start of a gap. Where a row without lines starts, that row
    /// becomes the new one: it keeps its glyphs, which take no pixels.
    fn open_row(&mut self, gap_start: u32, gap_end: u32, height: u32)
        requires
            old(self).wf(),
            old(self)@.is_gap(gap_start, height as int),
            old(self)@.space_end_for_start[gap_start] == gap_end,
        ensures
            final(self)@ == old(self)@.opened(gap_start, height),
            final(self).wf(),
    {
        let ghost before = self@;
        proof {
            before.lemma_opened(gap_start, height);
        }
        let new_space_start: u32 = gap_start + height;
        let _ = remove_entry(&mut self.space_end_for_start, &gap_start);
        if new_space_start == gap_end {
            let _ = remove_entry(&mut self.space_start_for_end, &gap_end);
        } else {
            insert_entry(&mut self.space_end_for_start, new_space_start, gap_end);
            insert_entry(&mut self.space_start_for_end, gap_end, new_space_start);
        }
        assert(before.rows.contains_key(gap_start) == row_contents(old(self).rows).contains_key(
            gap_start,
        ));
        let replaced: bool = match refresh_row(&mut self.rows, &gap_start) {
            Some(row) => {
                row.width = 0;
                row.height = height;
                true
            },
            None => false,
        };
        if !replaced {
            insert_row(&mut self.rows, gap_start, Row { width: 0, height, glyphs: Vec::new() });
        }
        proof {
            let after = before.opened(gap_start, height);
            assert(self@.rows[gap_start] =~= after.rows[gap_start]);
            assert(self@.rows =~= after.rows);
            assert(self@ =~= after);
        }
    }

    /// Gives a glyph a cell in a row that has room for it.
    fn place_glyph(
        &mut self,
        row_top: u32,
        width: u32,
        height: u32,
        font_glyph: (usize, GlyphId),
        glyph: &PositionedGlyph,
        uploads: &mut Vec<Upload>,
    )
        requires
            old(self).wf(),
            old(self)@.rows.contains_key(row_top),
            old(self)@.row_fits(row_top, width as int, height as int),
            old(self)@.pad_glyphs ==> 2 <= width && 2 <= height,
        ensures
            final(self)@ == old(self)@.placed(row_top, width, height, font_glyph, *glyph),
            final(self).wf(),
            final(uploads)@ == old(uploads)@.push(
                Upload {
                    rect: old(self)@.cell(row_top, width, height),
                    font_id: font_glyph.0,
                    glyph: *glyph,
                },
            ),
            old(self)@.rows[row_top].glyphs.len() < usize::MAX,
    {
        let ghost before = self@;
        proof {
            assert(before.row_wf(row_top));
        }
        let spec = GlyphScaleOffset::new(glyph.scale, glyph.offset);
        let mut index: usize = 0;
        match refresh_row(&mut self.rows, &row_top) {
            Some(row) => {
                assert(row@ == before.rows[row_top]);
                // calculate the target rect
                let rect = Rect {
                    min: point(row.width, row_top),
                    max: point(row.width + width, row_top + height),
                };
                uploads.push(Upload { rect, font_id: font_glyph.0, glyph: *glyph });
                // add the glyph to the row
                row.glyphs.push(
                    GlyphTexInfo { font_glyph, scale_offset: spec, tex_coords: rect },
                );
                row.width = row.width + width;
                index = row.glyphs.len() - 1;
            },
            None => {
                assert(row_contents(old(self).rows).contains_key(row_top));
            },
        }
        let key: u128 = font_glyph_key(font_glyph);
        let ghost trees = before.all_glyphs;
        let mut tree = match remove_entry(&mut self.all_glyphs, &key) {
            Some(tree) => tree,
            None => GlyphTree::new(),
        };
        proof {
            assert(before.all_glyphs.contains_key(key) == old(self).all_glyphs@.contains_key(key));
            assert(tree@ =~= before.tree(key));
        }
        tree.insert(spec, row_top, index);
        let ghost entries = tree@;
        insert_entry(&mut self.all_glyphs, key, tree);
        proof {
            let after = before.placed(row_top, width, height, font_glyph, *glyph);
            assert(self@.all_glyphs =~= before.all_glyphs.insert(key, entries));
            assert(self@.rows[row_top] =~= after.rows[row_top]);
            assert(self@.rows =~= after.rows);
            assert(self@ =~= after);
            before.lemma_placed(row_top, width, height, font_glyph, *glyph);
        }
    }

    /// The pixels that a bounding box takes in the texture.
    fn padded_size(&self, glyph: &PositionedGlyph, bb: &Rect<i32>) -> (size: (u32, u32))
        requires
            glyph.bounding_box == Some(*bb),
            glyph.is_drawable(),
        ensures
            size.0 == self@.padded_size(*glyph).0,
            size.1 == self@.padded_size(*glyph).1,
            self@.pad_glyphs ==> 2 <= size.0 && 2 <= size.1,
    {
        if self.pad_glyphs {
            (bb.width() as u32 + 2, bb.height() as u32 + 2)
        } else {
            (bb.width() as u32, bb.height() as u32)
        }
    }

    /// Finds a glyph that is not cached a row with room for it: one of those that
    /// there are, or else a new one.
    fn ready_row(&mut self, in_use: &HashSet<u32>, width: u32, height: u32) -> (row_top: Option<
        u32,
    >)
        requires
            old(self).wf(),
            height <= old(self)@.height,
            width <= old(self)@.width,
        ensures
            final(self).wf(),
            final(self)@.same_settings(old(self)@),
            match row_top {
                Some(top) => {
                    &&& readies_row(
                        old(self)@,
                        in_use@,
                        width as int,
                        height as int,
                        final(self)@,
                        top,
                    )
                    &&& final(self)@.rows.contains_key(top)
                    &&& final(self)@.row_fits(top, width as int, height as int)
                },
                None => {
                    &&& newest_fit(
                        old(self)@,
                        old(self)@.order,
                        width as int,
                        height as int,
                    ) is None
                    &&& !old(self)@.has_gap(height as int)
                    &&& old(self)@.made_room(in_use@, height as int) == (
                        final(self)@,
                        None::<u32>,
                    )
                },
            },
    {
        let ghost before = self@;
        // find row to put the glyph in, most used rows first
        if let Some(top) = self.find_row(width, height) {
            return Some(top);
        }
        // See if there is space for a new row
        let mut gap: Option<(u32, u32)> = self.find_gap(height);
        if gap.is_none() {
            // Remove old rows until room is available
            gap = self.make_room(in_use, height);
            proof {
                before.lemma_made_room(in_use@, height as int);
            }
        }
        match gap {
            Some((gap_start, gap_end)) => {
                // fill space for new row
                self.open_row(gap_start, gap_end, height);
                Some(gap_start)
            },
            None => None,
        }
    }

    /// Caches one glyph.
    fn cache_glyph<S, Q, A>(
        &mut self,
        queued: (usize, PositionedGlyph),
        in_use: &mut HashSet<u32>,
        arithmetic: &Arithmetic<S, Q, A>,
        uploads: &mut Vec<Upload>,
    ) -> (end: PassEnd) where
        S: Fn(Single, Single) -> Single,
        Q: Fn(Single, Single) -> Single,
        A: Fn(Single, Single) -> Single,

        requires
            old(self).wf(),
            queued.1.bounding_box is Some,
            queued.1.is_drawable(),
            arithmetic.is_total(),
        ensures
            final(self).wf(),
            final(self)@.same_settings(old(self)@),
            ({
                let before = Moment {
                    cache: old(self)@,
                    in_use: old(in_use)@,
                    uploads: old(uploads)@,
                };
                let after = Moment {
                    cache: final(self)@,
                    in_use: final(in_use)@,
                    uploads: final(uploads)@,
                };
                match end {
                    PassEnd::Done => deals_with(before, queued, after, arithmetic.comparison()),
                    PassEnd::TooLarge => refuses(before, queued, arithmetic.comparison()) && after
                        == before,
                    PassEnd::Stuck => is_stuck(before, queued, after, arithmetic.comparison()),
                }
            }),
    {
        let ghost before = Moment { cache: self@, in_use: in_use@, uploads: uploads@ };
        let (font_id, glyph) = queued;
        // Check to see if it's already cached, or a close enough version is
        if let Some(row) = self.cached_row(font_id, &glyph, arithmetic) {
            proof {
                before.cache.lemma_touched(row);
            }
            match refresh_row(&mut self.rows, &row) {
                Some(_) => {},
                None => {
                    assert(row_contents(old(self).rows).contains_key(row));
                },
            }
            in_use.insert(row);
            proof {
                assert(self@.rows =~= before.cache.rows);
                assert(self@ =~= before.cache.touched(row));
                let after = Moment { cache: self@, in_use: in_use@, uploads: uploads@ };
                assert(after =~= before.found(row));
                assert(finds_row(before.cache, queued, arithmetic.comparison(), Some(row)));
            }
            return PassEnd::Done;
        }
        // Not cached, so add it
        let bb: Rect<i32> = match glyph.pixel_bounding_box() {
            Some(bb) => bb,
            None => {
                return PassEnd::TooLarge;
            },
        };
        let (width, height) = self.padded_size(&glyph, &bb);
        if width > self.width || height > self.height {
            return PassEnd::TooLarge;
        }
        match self.ready_row(in_use, width, height) {
            Some(row_top) => {
                let ghost ready = self@;
                self.place_glyph(row_top, width, height, (font_id, glyph.id()), &glyph, uploads);
                in_use.insert(row_top);
                proof {
                    let after = Moment { cache: self@, in_use: in_use@, uploads: uploads@ };
                    assert(readies_row(
                        before.cache,
                        before.in_use,
                        width as int,
                        height as int,
                        ready,
                        row_top,
                    ));
                    assert(after =~= before.added(ready, row_top, queued));
                    assert(adds(before, queued, after));
                }
                PassEnd::Done
            },
            None => PassEnd::Stuck,
        }
    }

    /// Caches the queued glyphs, in the order of the queue, as far as that can be done
    /// without evicting one of them for another.
    fn cache_pass<S, Q, A>(
        &mut self,
        arithmetic: &Arithmetic<S, Q, A>,
        uploads: &mut Vec<Upload>,
    ) -> (pass: (PassEnd, Ghost<Moment>)) where
        S: Fn(Single, Single) -> Single,
        Q: Fn(Single, Single) -> Single,
        A: Fn(Single, Single) -> Single,

        requires
            old(self).wf(),
            arithmetic.is_total(),
        ensures
            final(self).wf(),
            is_pass(old(self)@, old(uploads)@, pass.1@, pass.0, arithmetic.comparison()),
            pass.1@.cache == final(self)@,
            pass.1@.uploads == final(uploads)@,
            final(self)@.same_settings(old(self)@),
    {
        let ghost before = self@;
        let mut in_use: HashSet<u32> = HashSet::new();
        let ghost start = start_of_pass(before, uploads@);
        let ghost mut run: Seq<Moment> = seq![start];
        assert(start =~= Moment { cache: self@, in_use: in_use@, uploads: uploads@ });
        let mut i: usize = 0;
        while i < self.queue.len()
            invariant
                self.wf(),
                before == old(self)@,
                start == start_of_pass(before, old(uploads)@),
                self@.same_settings(before),
                arithmetic.is_total(),
                i <= before.queue.len(),
                run.len() == i + 1,
                run[0] == start,
                run.last() == (Moment { cache: self@, in_use: in_use@, uploads: uploads@ }),
                is_run(before.queue, run, arithmetic.comparison()),
            decreases before.queue.len() - i,
        {
            let queued = self.queue[i];
            assert(self@.queue[i as int] == queued);
            let ghost now = run.last();
            let end = self.cache_glyph(queued, &mut in_use, arithmetic, uploads);
            let ghost next = Moment { cache: self@, in_use: in_use@, uploads: uploads@ };
            match end {
                PassEnd::Done => {
                    proof {
                        let longer = run.push(next);
                        assert forall|j: int| 0 <= j < longer.len() - 1 implies deals_with(
                            #[trigger] longer[j],
                            before.queue[j],
                            longer[j + 1],
                            arithmetic.comparison(),
                        ) by {
                            if j < run.len() - 1 {
                                assert(longer[j] == run[j]);
                            }
                        }
                        run = longer;
                    }
                },
                _ => {
                    assert(is_run_of_pass(
                        before,
                        old(uploads)@,
                        run,
                        next,
                        end,
                        arithmetic.comparison(),
                    ));
                    assert(is_pass(before, old(uploads)@, next, end, arithmetic.comparison()));
                    return (end, Ghost(next));
                },
            }
            i = i + 1;
        }
        let ghost last = run.last();
        assert(is_run_of_pass(
            before,
            old(uploads)@,
            run,
            last,
            PassEnd::Done,
            arithmetic.comparison(),
        ));
        assert(is_pass(before, old(uploads)@, last, PassEnd::Done, arithmetic.comparison()));
        (PassEnd::Done, Ghost(last))
    }

    /// Caches the queued glyphs. If this is unsuccessful, the queue is
    /// untouched. Any glyphs cached by previous calls to this function may be
    /// removed from the cache to make room for the newly queued glyphs. Thus if
    /// you want to ensure that a glyph is in the cache, the most recently
    /// cached queue must have contained that glyph.
    ///
    /// What is to be drawn into the texture is appended to `uploads`, in the order
    /// in which it should be drawn: the tallest glyphs first, and equally high ones as
    /// they were queued.
    pub fn cache_queued<S, Q, A>(
        &mut self,
        arithmetic: &Arithmetic<S, Q, A>,
        uploads: &mut Vec<Upload>,
    ) -> (result: Result<(), CacheWriteErr>) where
        S: Fn(Single, Single) -> Single,
        Q: Fn(Single, Single) -> Single,
        A: Fn(Single, Single) -> Single,

        requires
            old(self).wf(),
            arithmetic.is_total(),
        ensures
            final(self).wf(),
            caches_queue(
                old(self)@,
                old(uploads)@,
                final(self)@,
                final(uploads)@,
                result,
                arithmetic.comparison(),
            ),
    {
        let ghost before = self@;
        let queue = copy_of_queue(&self.queue);
        proof {
            assert forall|i: int| 0 <= i < self.queue@.len() implies (
            #[trigger] self.queue@[i]).1.bounding_box is Some
                && self.queue@[i].1.bounding_box->0.is_box() by {
                assert(before.queue[i].1.is_drawable());
            }
        }
        // tallest first gives better packing
        sort_tallest_first(&mut self.queue);
        let ghost sorted = self@;
        proof {
            lemma_sorts_queue(before, sorted);
        }
        let (first_end, Ghost(first)) = self.cache_pass(arithmetic, uploads);
        assert(is_pass(sorted, old(uploads)@, first, first_end, arithmetic.comparison()));
        match first_end {
            PassEnd::Stuck => {
                // clear the cache then try again
                self.clear();
                let ghost cleared = self@;
                let (end, Ghost(last)) = self.cache_pass(arithmetic, uploads);
                let result = self.end_caching(end, queue);
                assert(is_pass(cleared, first.uploads, last, end, arithmetic.comparison()));
                assert(ends_caching(before.queue, last, end, self@, uploads@, result));
                result
            },
            _ => {
                let result = self.end_caching(first_end, queue);
                assert(ends_caching(before.queue, first, first_end, self@, uploads@, result));
                result
            },
        }
    }

    /// Empties the queue after a successful pass, and restores it after another.
    fn end_caching(&mut self, end: PassEnd, queue: Vec<(usize, PositionedGlyph)>) -> (result:
        Result<(), CacheWriteErr>)
        requires
            old(self).wf(),
            with_queue(old(self)@, queue@).queue_wf(),
        ensures
            final(self).wf(),
            ends_caching(
                queue@,
                Moment { cache: old(self)@, in_use: Set::empty(), uploads: Seq::empty() },
                end,
                final(self)@,
                Seq::empty(),
                result,
            ),
    {
        let ghost before = self@;
        match end {
            PassEnd::Done => {
                self.clear_queue();
                Ok(())
            },
            PassEnd::TooLarge => {
                self.queue = queue;
                proof {
                    before.lemma_same_contents(self@);
                }
                Err(CacheWriteErr::GlyphTooLarge)
            },
            PassEnd::Stuck => {
                self.queue = queue;
                proof {
                    before.lemma_same_contents(self@);
                }
                Err(CacheWriteErr::NoRoomForWholeQueue)
            },
        }
    }

    /// Clears the cache. Does not affect the glyph queue.
    pub fn clear(&mut self)
        requires
            old(self).wf(),
        ensures
            final(self)@ == old(self)@.cleared(),
            final(self).wf(),
    {
        let ghost before = self@;
        clear_rows(&mut self.rows);
        self.space_end_for_start.clear();
        insert_entry(&mut self.space_end_for_start, 0, self.height);
        self.space_start_for_end.clear();
        insert_entry(&mut self.space_start_for_end, self.height, 0);
        self.all_glyphs.clear();
        proof {
            assert(self@.rows =~= Map::empty());
            assert(self@.all_glyphs =~= Map::empty());
            assert(self@ =~= before.cleared());
            before.lemma_cleared();
        }
    }

    /// Clears the glyph queue.
    pub fn clear_queue(&mut self)
        requires
            old(self).wf(),
        ensures
            final(self)@ == with_queue(old(self)@, Seq::empty()),
            final(self).wf(),
    {
        let ghost before = self@;
        self.queue.clear();
        proof {
            assert(self@ =~= with_queue(before, Seq::empty()));
            before.lemma_same_contents(self@);
        }
    }

    /// Queue a glyph for caching by the next call to `cache_queued`. `font_id`
    /// is used to disambiguate glyphs from different fonts. The user should
    /// ensure that `font_id` is unique to the font the glyph is from.
    pub fn queue_glyph(&mut self, font_id: usize, glyph: PositionedGlyph)
        requires
            old(self).wf(),
            glyph.is_drawable(),
        ensures
            final(self)@ == if glyph.bounding_box is Some {
                CacheView { queue: old(self)@.queue.push((font_id, glyph)), ..old(self)@ }
            } else {
                old(self)@
            },
            final(self)@ == old(self)@.queued(font_id, glyph),
            final(self).wf(),
    {
        let ghost before = self@;
        if glyph.pixel_bounding_box().is_some() {
            self.queue.push((font_id, glyph));
            proof {
                let after = CacheView { queue: before.queue.push((font_id, glyph)), ..before };
                assert(self@ =~= after);
                assert forall|i: int| 0 <= i < after.queue.len() implies (
                #[trigger] after.queue[i]).1.bounding_box is Some && after.queue[i].1.is_drawable() by {
                    if i < before.queue.len() {
                        assert(after.queue[i] == before.queue[i]);
                    }
                }
                before.lemma_same_contents(after);
            }
        }
    }

    /// Returns the cache texture dimensions assumed by the cache. For proper
    /// operation this should match the dimensions of the used GPU texture.
    pub fn dimensions(&self) -> (size: (u32, u32))
        ensures
            size == (self@.width, self@.height),
    {
        (self.width, self.height)
    }

    /// Whether glyphs are packed with a padding of a pixel on every side.
    pub fn pads_glyphs(&self) -> (pad_glyphs: bool)
        ensures
            pad_glyphs == self@.pad_glyphs,
    {
        self.pad_glyphs
    }

    /// Returns the current scale tolerance for the cache.
    pub fn scale_tolerance(&self) -> (tolerance: Single)
        ensures
            tolerance == self@.scale_tolerance,
    {
        self.scale_tolerance
    }

    /// Returns the current subpixel position tolerance for the cache.
    pub fn position_tolerance(&self) -> (tolerance: Single)
        ensures
            tolerance == self@.position_tolerance,
    {
        self.position_tolerance
    }

    /// Sets the scale tolerance for the cache, or the smallest tolerance if that is
    /// larger. See the documentation for `CacheBuilder` for more information.
    pub fn set_scale_tolerance(&mut self, tolerance: Single)
        requires
            old(self).wf(),
            tolerance.is_positive_spec(),
        ensures
            final(self)@ == (CacheView {
                scale_tolerance: tolerance.max_spec(Single { bits: SMALLEST_TOLERANCE }),
                ..old(self)@
            }),
            final(self).wf(),
    {
        let ghost before = self@;
        self.scale_tolerance = tolerance.max(Single { bits: SMALLEST_TOLERANCE });
        proof {
            before.lemma_same_contents(self@);
        }
    }

    /// Sets the subpixel position tolerance for the cache, or the smallest tolerance
    /// if that is larger. See the documentation for `CacheBuilder` for more
    /// information.
    pub fn set_position_tolerance(&mut self, tolerance: Single)
        requires
            old(self).wf(),
            tolerance.is_positive_spec(),
        ensures
            final(self)@ == (CacheView {
                position_tolerance: tolerance.max_spec(Single { bits: SMALLEST_TOLERANCE }),
                ..old(self)@
            }),
            final(self).wf(),
    {
        let ghost before = self@;
        self.position_tolerance = tolerance.max(Single { bits: SMALLEST_TOLERANCE });
        proof {
            before.lemma_same_contents(self@);
        }
    }

    /// Searches for a cached version of a glyph, outward from its place in the order,
    /// one step down and one step up at a time.
    fn search<S, Q, A>(
        &self,
        tree: &GlyphTree,
        target: &GlyphScaleOffset,
        arithmetic: &Arithmetic<S, Q, A>,
    ) -> (found: (Option<TreeEntry>, Option<TreeEntry>, Ghost<int>)) where
        S: Fn(Single, Single) -> Single,
        Q: Fn(Single, Single) -> Single,
        A: Fn(Single, Single) -> Single,

        requires
            ascending(tree@),
            arithmetic.is_total(),
        ensures
            search_ends(self@, tree@, *target, arithmetic.comparison(), found.2@, found.0, found.1),
    {
        let rank: u128 = target.rank();
        let upto: usize = tree.count_below(rank + 1);
        let from: usize = tree.count_below(rank);
        let len: usize = tree.len();
        let mut step: usize = 0;
        while step < upto || step < len - from
            invariant
                upto == below(tree@, target.rank_spec() + 1),
                from == below(tree@, target.rank_spec()),
                upto <= len,
                from <= len,
                len == tree@.len(),
                step <= len,
                arithmetic.is_total(),
                none_before(self@, tree@, *target, arithmetic.comparison(), step as int),
            decreases len - step,
        {
            let mut lower: Option<TreeEntry> = None;
            let mut upper: Option<TreeEntry> = None;
            let mut down: bool = false;
            let mut up: bool = false;
            if step < upto {
                let entry = tree.get(upto - 1 - step);
                down = entry.spec.matches(
                        target,
                        self.scale_tolerance,
                        self.position_tolerance,
                        &arithmetic.difference,
                    );
                if down {
                    lower = Some(entry);
                }
            }
            if step < len - from {
                let entry = tree.get(from + step);
                up = entry.spec.matches(
                        target,
                        self.scale_tolerance,
                        self.position_tolerance,
                        &arithmetic.difference,
                    );
                if up {
                    upper = Some(entry);
                }
            }
            assert(is_answer(
                self@,
                downward(tree@, *target, step as int),
                *target,
                arithmetic.comparison(),
                down,
            ));
            assert(is_answer(
                self@,
                upward(tree@, *target, step as int),
                *target,
                arithmetic.comparison(),
                up,
            ));
            if lower.is_some() || upper.is_some() {
                return (lower, upper, Ghost(step as int));
            }
            // continue searching for a match
            step = step + 1;
        }
        proof {
            assert(is_answer(
                self@,
                downward(tree@, *target, step as int),
                *target,
                arithmetic.comparison(),
                false,
            ));
            assert(is_answer(
                self@,
                upward(tree@, *target, step as int),
                *target,
                arithmetic.comparison(),
                false,
            ));
        }
        (None, None, Ghost(step as int))
    }

    /// The pixels of a cached glyph, padding not included.
    fn glyph_rect(&self, entry: &TreeEntry, key: Ghost<u128>) -> (rect: Rect<u32>)
        requires
            self.wf(),
            self@.is_located(key@, *entry),
        ensures
            rect == glyph_rect(self@, *entry),
    {
        proof {
            assert(self@.row_wf(entry.row));
            assert(row_contents(self.rows).contains_key(entry.row));
            assert(self@.cell_wf(
                entry.row,
                self@.rows[entry.row].glyphs[entry.index as int].tex_coords,
            ));
        }
        let cell: Rect<u32> = row_at(&self.rows, &entry.row).glyphs[entry.index].tex_coords;
        if self.pad_glyphs {
            cell.unpadded()
        } else {
            cell
        }
    }

    /// The one of two entries that is nearer to a glyph, or the second.
    fn nearer<S, Q, A>(
        &self,
        lower: TreeEntry,
        upper: TreeEntry,
        target: &GlyphScaleOffset,
        arithmetic: &Arithmetic<S, Q, A>,
    ) -> (found: TreeEntry) where
        S: Fn(Single, Single) -> Single,
        Q: Fn(Single, Single) -> Single,
        A: Fn(Single, Single) -> Single,

        requires
            arithmetic.is_total(),
        ensures
            is_nearer(self@, lower, upper, *target, arithmetic.comparison(), found),
    {
        let l_measure = lower.spec.match_distance(
            target,
            self.scale_tolerance,
            self.position_tolerance,
            &arithmetic.difference,
            &arithmetic.quotient,
            &arithmetic.sum,
        );
        let u_measure = upper.spec.match_distance(
            target,
            self.scale_tolerance,
            self.position_tolerance,
            &arithmetic.difference,
            &arithmetic.quotient,
            &arithmetic.sum,
        );
        proof {
            let (s, p) = (self@.scale_tolerance, self@.position_tolerance);
            let comparison = arithmetic.comparison();
            assert(comparison.can_measure(lower.spec, *target, s, p, l_measure));
            assert(comparison.can_measure(upper.spec, *target, s, p, u_measure));
        }
        if l_measure.less_than(u_measure) {
            lower
        } else {
            upper
        }
    }

    /// What comes of a search that ended with these entries.
    fn resolve<S, Q, A>(
        &self,
        lower: Option<TreeEntry>,
        upper: Option<TreeEntry>,
        target: &GlyphScaleOffset,
        glyph_bb: Rect<i32>,
        arithmetic: &Arithmetic<S, Q, A>,
        key: Ghost<u128>,
    ) -> (result: Result<Option<TextureMatch>, CacheReadErr>) where
        S: Fn(Single, Single) -> Single,
        Q: Fn(Single, Single) -> Single,
        A: Fn(Single, Single) -> Single,

        requires
            self.wf(),
            lower is Some ==> self@.is_located(key@, lower->0),
            upper is Some ==> self@.is_located(key@, upper->0),
            arithmetic.is_total(),
        ensures
            read_result(self@, lower, upper, *target, glyph_bb, arithmetic.comparison(), result),
    {
        let found: TreeEntry = match (lower, upper) {
            (None, None) => {
                return Err(CacheReadErr::GlyphNotCached);
            },
            (Some(l), None) => l,
            (None, Some(u)) => u,
            (Some(l), Some(u)) => if l.row == u.row && l.index == u.index {
                // both matches are really the same one, and match the input
                let tex_rect = self.glyph_rect(&l, key);
                return Ok(Some(TextureMatch { tex_rect, bounds: DrawnBounds::Own(glyph_bb) }));
            } else {
                // Two close-enough matches. Figure out which is closest.
                self.nearer(l, u, target, arithmetic)
            },
        };
        let tex_rect = self.glyph_rect(&found, key);
        Ok(Some(TextureMatch { tex_rect, bounds: DrawnBounds::Substitute(found.spec) }))
    }

    /// Retrieves the pixels in the texture of a glyph in the cache, and where they
    /// should be drawn. In the majority of cases that is the bounding box of the
    /// input glyph. It only differs if the cache has returned a substitute glyph
    /// that is deemed close enough to the requested glyph as specified by the cache
    /// tolerance parameters.
    ///
    /// A successful result is `Some` if the glyph is not an empty glyph (no
    /// shape, and thus no pixels to return).
    ///
    /// Ensure that `font_id` matches the `font_id` that was passed to
    /// `queue_glyph` with this `glyph`.
    pub fn rect_for<S, Q, A>(
        &self,
        font_id: usize,
        glyph: &PositionedGlyph,
        arithmetic: &Arithmetic<S, Q, A>,
    ) -> (result: Result<Option<TextureMatch>, CacheReadErr>) where
        S: Fn(Single, Single) -> Single,
        Q: Fn(Single, Single) -> Single,
        A: Fn(Single, Single) -> Single,

        requires
            self.wf(),
            arithmetic.is_total(),
        ensures
            reads(self@, font_id, *glyph, arithmetic.comparison(), result),
    {
        let glyph_bb: Rect<i32> = match glyph.pixel_bounding_box() {
            Some(bb) => bb,
            None => {
                return Ok(None);
            },
        };
        let target = GlyphScaleOffset::new(glyph.scale, glyph.offset);
        let key: u128 = font_glyph_key((font_id, glyph.id()));
        let ghost entries = self@.tree(key);
        let (lower, upper, Ghost(steps)) = match get_entry(&self.all_glyphs, &key) {
            Some(tree) => {
                assert(self@.all_glyphs.contains_key(key));
                assert(tree@ == entries);
                self.search(tree, &target, arithmetic)
            },
            None => {
                let empty = GlyphTree::new();
                assert(empty@ == entries);
                self.search(&empty, &target, arithmetic)
            },
        };
        proof {
            let comparison = arithmetic.comparison();
            lemma_search_ends_within(self@, key, target, comparison, steps, lower, upper);
        }
        let result = self.resolve(lower, upper, &target, glyph_bb, arithmetic, Ghost(key));
        assert(search_ends(
            self@,
            self@.tree(font_glyph_key_spec((font_id, glyph.id))),
            glyph.spec(),
            arithmetic.comparison(),
            steps,
            lower,
            upper,
        ));
        result
    }
}

/// A search ends with entries of the index.
proof fn lemma_search_ends_within(
    cache: CacheView,
    key: u128,
    target: GlyphScaleOffset,
    comparison: Comparison,
    steps: int,
    lower: Option<TreeEntry>,
    upper: Option<TreeEntry>,
)
    requires
        cache.wf(),
        search_ends(cache, cache.tree(key), target, comparison, steps, lower, upper),
    ensures
        lower is Some ==> cache.is_located(key, lower->0),
        upper is Some ==> cache.is_located(key, upper->0),
{
    let entries = cache.tree(key);
    lemma_below(entries, target.rank_spec());
    lemma_below(entries, target.rank_spec() + 1);
    if lower is Some {
        assert(entries.contains(lower->0));
    }
    if upper is Some {
        assert(entries.contains(upper->0));
    }
}

} // verus!
