//! Every part of an operation keeps a cache well-formed.

use crate::collections::moved_to_back;
use crate::glyph::{GlyphId, PositionedGlyph};
use crate::glyph_tree::{ascending, lemma_inserted, lemma_removed, TreeEntry};
use crate::model::{forgotten, names, names_at, stand_side_by_side, CacheView};
use crate::row::{font_glyph_key_spec, GlyphTexInfo};
use vstd::prelude::*;

verus! {

/// Moving a key to the back of a list changes neither which keys it holds nor how
/// often.
pub proof fn lemma_moved_to_back(order: Seq<u32>, key: u32)
    requires
        order.no_duplicates(),
        order.contains(key),
    ensures
        moved_to_back(order, key).no_duplicates(),
        moved_to_back(order, key).len() == order.len(),
        forall|k: u32| #[trigger] moved_to_back(order, key).contains(k) <==> order.contains(k),
{
    let n = order.index_of(key);
    let after = moved_to_back(order, key);
    assert(0 <= n < order.len() && order[n] == key);
    assert forall|i: int| 0 <= i < order.len() - 1 implies #[trigger] after[i] == order[if i < n {
        i
    } else {
        i + 1
    }] by {}
    assert(after.last() == key);
    assert forall|k: u32| order.contains(k) implies #[trigger] after.contains(k) by {
        let i = choose|i: int| 0 <= i < order.len() && order[i] == k;
        if i < n {
            assert(after[i] == k);
        } else if i == n {
            assert(after[order.len() - 1] == k);
        } else {
            assert(after[i - 1] == k);
        }
    }
    assert forall|k: u32| #[trigger] after.contains(k) implies order.contains(k) by {
        let i = choose|i: int| 0 <= i < after.len() && after[i] == k;
        if i == order.len() - 1 {
        } else {
            assert(order[if i < n {
                i
            } else {
                i + 1
            }] == k);
        }
    }
}

/// Forgetting glyphs takes out of the index the entries of their keys and ranks,
/// and no others.
pub proof fn lemma_forgotten(all_glyphs: Map<u128, Seq<TreeEntry>>, infos: Seq<GlyphTexInfo>)
    requires
        forall|key: u128| #[trigger]
            all_glyphs.contains_key(key) ==> ascending(all_glyphs[key]),
    ensures
        forall|key: u128| #[trigger]
            forgotten(all_glyphs, infos).contains_key(key) <==> all_glyphs.contains_key(key),
        forall|key: u128| #[trigger]
            all_glyphs.contains_key(key) ==> ascending(forgotten(all_glyphs, infos)[key]),
        forall|key: u128, e: TreeEntry|
            all_glyphs.contains_key(key) ==> (#[trigger] forgotten(all_glyphs, infos)[key].contains(
                e,
            ) <==> all_glyphs[key].contains(e) && !names(infos, key, e.rank())),
    decreases infos.len(),
{
    if infos.len() > 0 {
        let front = infos.drop_last();
        let last = infos.last();
        let n = infos.len() - 1;
        lemma_forgotten(all_glyphs, front);
        let before = forgotten(all_glyphs, front);
        let after = forgotten(all_glyphs, infos);
        let k = font_glyph_key_spec(last.font_glyph);
        if before.contains_key(k) {
            lemma_removed(before[k], last.scale_offset);
        }
        assert forall|key: u128, rank: int| #[trigger]
            names(infos, key, rank) <==> names(front, key, rank) || (key == k && rank
                == last.scale_offset.rank_spec()) by {
            if names(front, key, rank) {
                let j = choose|j: int| names_at(front, key, rank, j);
                assert(names_at(infos, key, rank, j));
            }
            if key == k && rank == last.scale_offset.rank_spec() {
                assert(names_at(infos, key, rank, n));
            }
            if names(infos, key, rank) {
                let j = choose|j: int| names_at(infos, key, rank, j);
                if j < n {
                    assert(names_at(front, key, rank, j));
                }
            }
        }
        assert forall|key: u128, e: TreeEntry| all_glyphs.contains_key(key) implies (
        #[trigger] after[key].contains(e) <==> all_glyphs[key].contains(e) && !names(
            infos,
            key,
            e.rank(),
        )) by {
            assert(before[key].contains(e) <==> all_glyphs[key].contains(e) && !names(
                front,
                key,
                e.rank(),
            ));
        }
    } else {
        assert forall|key: u128, rank: int| !#[trigger] names(infos, key, rank) by {}
    }
}

impl CacheView {
    /// A cleared cache is well-formed.
    pub proof fn lemma_cleared(self)
        requires
            self.tolerances_wf(),
            self.queue_wf(),
        ensures
            self.cleared().wf(),
    {
        let after = self.cleared();
        assert forall|y: int| 0 <= y < after.height implies #[trigger] after.covers(y) by {
            assert(after.in_gap(0, y));
        }
    }

    /// A cache with the same glyphs at the same places is well-formed, whatever the
    /// order of its rows and of its queue.
    pub proof fn lemma_same_contents(self, other: CacheView)
        requires
            self.wf(),
            other.width == self.width,
            other.height == self.height,
            other.pad_glyphs == self.pad_glyphs,
            other.rows == self.rows,
            other.space_end_for_start == self.space_end_for_start,
            other.space_start_for_end == self.space_start_for_end,
            other.all_glyphs == self.all_glyphs,
            other.tolerances_wf(),
            other.order_wf(),
            other.queue_wf(),
        ensures
            other.wf(),
    {
        assert forall|t: u32| #[trigger] other.rows.contains_key(t) implies other.row_wf(t) by {
            assert(self.row_wf(t));
            assert forall|j: int| 0 <= j < other.rows[t].glyphs.len() implies other.cell_wf(
                t,
                (#[trigger] other.rows[t].glyphs[j]).tex_coords,
            ) by {
                assert(self.cell_wf(t, self.rows[t].glyphs[j].tex_coords));
            }
        }
        assert forall|y: int| 0 <= y < other.height implies #[trigger] other.covers(y) by {
            assert(self.covers(y));
            if exists|t: u32| self.in_row(t, y) {
                let t = choose|t: u32| self.in_row(t, y);
                assert(other.in_row(t, y));
            } else {
                let s = choose|s: u32| self.in_gap(s, y);
                assert(other.in_gap(s, y));
            }
        }
        assert forall|key: u128, e: TreeEntry|
            other.all_glyphs.contains_key(key) && #[trigger] other.all_glyphs[key].contains(
                e,
            ) implies other.is_located(key, e) by {
            assert(self.is_located(key, e));
        }
    }

    /// Touching a row keeps a cache well-formed.
    pub proof fn lemma_touched(self, top: u32)
        requires
            self.wf(),
            self.rows.contains_key(top),
        ensures
            self.touched(top).wf(),
    {
        lemma_moved_to_back(self.order, top);
        self.lemma_same_contents(self.touched(top));
    }

    /// Without rows a single gap fills the texture. No other has any lines.
    pub proof fn lemma_whole_gap(self)
        requires
            self.wf(),
            self.order.len() == 0,
        ensures
            self.space_end_for_start.contains_key(0),
            self.space_end_for_start[0] == self.height,
            forall|start: u32| #[trigger]
                self.space_end_for_start.contains_key(start) && start
                    < self.space_end_for_start[start] ==> start == 0,
    {
        assert forall|top: u32| !self.rows.contains_key(top) by {
            assert(!self.order.contains(top));
        }
        if self.height > 0 {
            assert(self.covers(0));
            let s = choose|s: u32| self.in_gap(s, 0);
            assert(self.in_gap(s, 0) && s == 0);
        }
        let e = self.space_end_for_start[0];
        if e < self.height {
            assert(self.covers(e as int));
            let t = choose|t: u32| self.in_gap(t, e as int);
            assert(self.in_gap(t, e as int));
            assert(self.space_end_for_start.contains_key(0));
            assert(t == e);
        }
        assert forall|start: u32| #[trigger]
            self.space_end_for_start.contains_key(start) && start
                < self.space_end_for_start[start] implies start == 0 by {
            if start > 0 {
                assert(self.space_end_for_start.contains_key(0));
                assert(self.space_end_for_start[0] <= start);
            }
        }
    }

    /// Evicting a row keeps a cache well-formed, and leaves a gap.
    pub proof fn lemma_evicted(self)
        requires
            self.wf(),
            self.order.len() > 0,
        ensures
            self.evicted().wf(),
            self.evicted().order.len() == self.order.len() - 1,
            self.evicted().space_end_for_start.contains_key(self.evicted_gap()),
    {
        let top = self.order[0];
        let row = self.rows[top];
        let bottom = (top + row.height) as u32;
        let after = self.evicted();
        let start = self.merged_start(top);
        let end = self.merged_end(bottom);
        assert(self.order.contains(top));
        assert(self.row_wf(top));
        self.lemma_evicted_order();
        if row.height > 0 {
            self.lemma_evicted_gaps();
        } else {
            self.lemma_evicted_flat();
        }
        self.lemma_evicted_index();
        assert forall|t: u32| #[trigger] after.rows.contains_key(t) implies after.row_wf(t) by {
            assert(self.row_wf(t));
            assert forall|j: int| 0 <= j < after.rows[t].glyphs.len() implies after.cell_wf(
                t,
                (#[trigger] after.rows[t].glyphs[j]).tex_coords,
            ) by {
                assert(self.cell_wf(t, self.rows[t].glyphs[j].tex_coords));
            }
        }
    }

    /// Evicting a row takes its top off the list.
    proof fn lemma_evicted_order(self)
        requires
            self.wf(),
            self.order.len() > 0,
        ensures
            self.evicted().order_wf(),
    {
        let after = self.evicted();
        let rest = self.order.drop_first();
        assert forall|i: int| 0 <= i < rest.len() implies #[trigger] rest[i] == self.order[i
            + 1] by {}
        assert forall|t: u32| #[trigger] after.order.contains(t) <==> after.rows.contains_key(
            t,
        ) by {
            if after.order.contains(t) {
                let i = choose|i: int| 0 <= i < rest.len() && rest[i] == t;
                assert(self.order[i + 1] == t);
                assert(self.order.contains(t));
            }
            if after.rows.contains_key(t) {
                assert(self.order.contains(t));
                let i = choose|i: int| 0 <= i < self.order.len() && self.order[i] == t;
                assert(rest[i - 1] == t);
            }
        }
    }

    /// Evicting a row without lines leaves the gaps as they are, or leaves one without
    /// lines.
    proof fn lemma_evicted_flat(self)
        requires
            self.wf(),
            self.order.len() > 0,
            self.rows[self.order[0]].height == 0,
        ensures
            self.evicted().gaps_wf(),
            self.evicted().tiled(),
            self.evicted().flat_wf(),
    {
        let top = self.order[0];
        let after = self.evicted();
        let start = self.merged_start(top);
        let end = self.merged_end(top);
        assert(self.order.contains(top));
        assert(self.row_wf(top));
        assert(start <= top <= end <= self.height);
        assert(start < end ==> self.space_end_for_start.contains_key(start)
            && self.space_end_for_start[start] == end);
        assert forall|s: u32| #[trigger] after.space_end_for_start.contains_key(s) implies s
            == start && after.space_end_for_start[s] == end
            || self.space_end_for_start.contains_key(s) && s != top
            && after.space_end_for_start[s] == self.space_end_for_start[s] by {}
        assert(after.gaps_wf()) by {
            assert forall|s: u32| #[trigger] after.space_end_for_start.contains_key(s) implies {
                let e = after.space_end_for_start[s];
                &&& s <= e <= after.height
                &&& after.space_start_for_end.contains_key(e)
                &&& after.space_start_for_end[e] == s
                &&& s < e ==> !after.space_end_for_start.contains_key(e)
            } by {
                if s != start {
                    let e = self.space_end_for_start[s];
                    assert(self.space_start_for_end[e] == s);
                    assert(e != top);
                    assert(e != end);
                }
            }
            assert forall|e: u32| #[trigger] after.space_start_for_end.contains_key(e) implies {
                let s = after.space_start_for_end[e];
                &&& s <= e
                &&& s < e ==> after.space_end_for_start.contains_key(s)
                    && after.space_end_for_start[s] == e
            } by {
                if e != end {
                    assert(self.space_start_for_end.contains_key(e));
                }
            }
        }
        assert(after.gaps_apart());
        assert(after.rows_apart());
        assert(after.rows_and_gaps_apart());
        assert forall|y: int| 0 <= y < after.height implies #[trigger] after.covers(y) by {
            assert(self.covers(y));
            if exists|t: u32| self.in_row(t, y) {
                let t = choose|t: u32| self.in_row(t, y);
                assert(after.in_row(t, y));
            } else {
                let s = choose|s: u32| self.in_gap(s, y);
                assert(self.in_gap(s, y));
                assert(after.in_gap(s, y));
            }
        }
        if self.height == 0 {
            assert(top == 0);
        }
    }

    /// Evicting a row with lines joins these to the gaps next to them.
    proof fn lemma_evicted_gaps(self)
        requires
            self.wf(),
            self.order.len() > 0,
            self.rows[self.order[0]].height > 0,
        ensures
            self.evicted().gaps_wf(),
            self.evicted().tiled(),
    {
        let top = self.order[0];
        let row = self.rows[top];
        let bottom = (top + row.height) as u32;
        let after = self.evicted();
        let start = self.merged_start(top);
        let end = self.merged_end(bottom);
        assert(self.order.contains(top));
        assert(self.rows.contains_key(top));
        assert(self.row_wf(top));
        assert(!self.space_end_for_start.contains_key(top));
        assert(start <= top < bottom <= end <= self.height);
        assert(start < top ==> self.space_end_for_start.contains_key(start)
            && self.space_end_for_start[start] == top);
        assert(!after.space_end_for_start.contains_key(end)) by {
            if self.space_end_for_start.contains_key(bottom) {
                if bottom < end {
                    assert(!self.space_end_for_start.contains_key(end));
                }
            }
        }
        assert forall|s: u32| #[trigger]
            self.space_end_for_start.contains_key(s) && s != bottom && s != start implies {
            let e = self.space_end_for_start[s];
            &&& e != top
            &&& e != end
            &&& s < e ==> e < start || end < s
        } by {
            let e = self.space_end_for_start[s];
            assert(self.space_start_for_end[e] == s);
            if s < e {
                assert(bottom <= s || e <= top);
                if start < top {
                    assert(self.space_end_for_start.contains_key(start));
                    if e <= top {
                        assert(s < start);
                        assert(!self.space_end_for_start.contains_key(e));
                    }
                }
                if self.space_end_for_start.contains_key(bottom) {
                    if s > bottom {
                        assert(end <= s);
                    }
                }
            }
        }
        assert forall|s: u32| #[trigger] after.space_end_for_start.contains_key(s) implies {
            let e = after.space_end_for_start[s];
            &&& s <= e <= after.height
            &&& after.space_start_for_end.contains_key(e)
            &&& after.space_start_for_end[e] == s
            &&& s < e ==> !after.space_end_for_start.contains_key(e)
        } by {
            if s != start {
                assert(self.space_end_for_start.contains_key(s));
                assert(s != bottom);
            }
        }
        assert forall|e: u32| #[trigger] after.space_start_for_end.contains_key(e) implies {
            let s = after.space_start_for_end[e];
            &&& s <= e
            &&& s < e ==> after.space_end_for_start.contains_key(s)
                && after.space_end_for_start[s] == e
        } by {
            if e != end {
                assert(self.space_start_for_end.contains_key(e));
                assert(e != top);
            }
        }
        assert(after.gaps_wf());
        assert(after.gaps_apart());
        assert(after.rows_apart());
        assert forall|t: u32, s: u32|
            #![trigger after.rows.contains_key(t), after.space_end_for_start.contains_key(s)]
            after.rows.contains_key(t) && after.space_end_for_start.contains_key(s)
                && after.rows[t].height > 0 implies {
            let e = after.space_end_for_start[s];
            &&& s != t
            &&& s < e ==> t + after.rows[t].height <= s || e <= t
        } by {
            assert(self.rows.contains_key(t));
            assert(self.row_wf(t));
            if s == start {
                assert(t < top ==> t + self.rows[t].height <= top);
                assert(t > top ==> bottom <= t);
                if start < top {
                    assert(self.space_end_for_start.contains_key(start));
                    assert(t + self.rows[t].height <= start || top <= t);
                }
                if self.space_end_for_start.contains_key(bottom) && bottom < end {
                    assert(t + self.rows[t].height <= bottom || end <= t);
                }
            } else {
                assert(self.space_end_for_start.contains_key(s));
            }
        }
        assert forall|y: int| 0 <= y < after.height implies #[trigger] after.covers(y) by {
            assert(self.covers(y));
            if start <= y < end {
                assert(after.in_gap(start, y));
            } else if exists|t: u32| self.in_row(t, y) {
                let t = choose|t: u32| self.in_row(t, y);
                assert(after.in_row(t, y));
            } else {
                let s = choose|s: u32| self.in_gap(s, y);
                assert(self.in_gap(s, y));
                assert(after.in_gap(s, y));
            }
        }
    }

    /// Evicting a row takes the entries of its glyphs out of the index.
    proof fn lemma_evicted_index(self)
        requires
            self.wf(),
            self.order.len() > 0,
        ensures
            self.evicted().index_wf(),
    {
        let top = self.order[0];
        let row = self.rows[top];
        let after = self.evicted();
        lemma_forgotten(self.all_glyphs, row.glyphs);
        assert forall|key: u128, e: TreeEntry|
            after.all_glyphs.contains_key(key) && #[trigger] after.all_glyphs[key].contains(
                e,
            ) implies after.is_located(key, e) by {
            assert(self.all_glyphs[key].contains(e));
            assert(self.is_located(key, e));
            if e.row == top {
                assert(names_at(row.glyphs, key, e.rank(), e.index as int));
            }
        }
    }

    /// Making room keeps a cache well-formed. It ends with a gap of the height asked
    /// for or in front of a row that is in use.
    pub proof fn lemma_made_room(self, in_use: Set<u32>, height: int)
        requires
            self.wf(),
            0 <= height <= self.height,
            !self.has_gap(height),
        ensures
            ({
                let (after, gap) = self.made_room(in_use, height);
                &&& after.wf()
                &&& after.same_settings(self)
                &&& match gap {
                    Some(start) => after.is_gap(start, height),
                    None => after.order.len() > 0 && in_use.contains(after.order[0]),
                }
            }),
        decreases self.order.len(),
    {
        if self.order.len() == 0 {
            self.lemma_whole_gap();
            assert(self.is_gap(0, height));
        } else if !in_use.contains(self.order[0]) {
            self.lemma_evicted();
            let next = self.evicted();
            if !next.is_gap(self.evicted_gap(), height) {
                assert forall|start: u32| !next.is_gap(start, height) by {
                    assert(!self.is_gap(start, height));
                }
                next.lemma_made_room(in_use, height);
            }
        }
    }

    /// Opening a row without lines leaves the gaps as they are, or takes one without
    /// lines.
    proof fn lemma_opened_flat(self, start: u32)
        requires
            self.wf(),
            self.space_end_for_start.contains_key(start),
        ensures
            self.opened(start, 0).gaps_wf(),
            self.opened(start, 0).tiled(),
            self.opened(start, 0).flat_wf(),
    {
        let after = self.opened(start, 0);
        let end = self.space_end_for_start[start];
        assert forall|s: u32| #[trigger] after.space_end_for_start.contains_key(
            s,
        ) implies self.space_end_for_start.contains_key(s) && after.space_end_for_start[s]
            == self.space_end_for_start[s] by {}
        assert(after.gaps_wf());
        assert(after.gaps_apart());
        assert(after.rows_apart());
        assert(after.rows_and_gaps_apart());
        assert forall|y: int| 0 <= y < after.height implies #[trigger] after.covers(y) by {
            assert(self.covers(y));
            if exists|t: u32| self.in_row(t, y) {
                let t = choose|t: u32| self.in_row(t, y);
                assert(after.in_row(t, y));
            } else {
                let s = choose|s: u32| self.in_gap(s, y);
                assert(self.in_gap(s, y));
                assert(after.in_gap(s, y));
            }
        }
    }

    /// Opening a row with lines leaves what it does not take of its gap.
    proof fn lemma_opened_gaps(self, start: u32, height: u32)
        requires
            self.wf(),
            self.is_gap(start, height as int),
            0 < height,
        ensures
            self.opened(start, height).gaps_wf(),
            self.opened(start, height).tiled(),
    {
        let end = self.space_end_for_start[start];
        let rest = (start + height) as u32;
        let after = self.opened(start, height);
        assert(self.space_end_for_start.contains_key(start));
        assert(start < rest <= end <= self.height);
        assert(!self.space_end_for_start.contains_key(end));
        assert forall|s: u32| #[trigger] self.space_end_for_start.contains_key(s) && s
            != start implies {
            let e = self.space_end_for_start[s];
            &&& e != end
            &&& s < e ==> e < start || end < s
        } by {
            let e = self.space_end_for_start[s];
            assert(self.space_start_for_end[e] == s);
            if s < e && s < start {
                assert(!self.space_end_for_start.contains_key(e));
            }
        }
        assert forall|s: u32| #[trigger] after.space_end_for_start.contains_key(s) implies {
            let e = after.space_end_for_start[s];
            &&& s <= e <= after.height
            &&& after.space_start_for_end.contains_key(e)
            &&& after.space_start_for_end[e] == s
            &&& s < e ==> !after.space_end_for_start.contains_key(e)
        } by {
            if s != rest || rest == end {
                assert(self.space_end_for_start.contains_key(s));
            }
        }
        assert forall|e: u32| #[trigger] after.space_start_for_end.contains_key(e) implies {
            let s = after.space_start_for_end[e];
            &&& s <= e
            &&& s < e ==> after.space_end_for_start.contains_key(s)
                && after.space_end_for_start[s] == e
        } by {
            assert(self.space_start_for_end.contains_key(e));
        }
        assert(after.gaps_wf());
        assert forall|t: u32| #[trigger]
            self.rows.contains_key(t) && self.rows[t].height > 0 implies t + self.rows[t].height
            <= start || end <= t by {}
        assert(after.gaps_apart());
        assert(after.rows_apart());
        assert forall|t: u32, s: u32|
            #![trigger after.rows.contains_key(t), after.space_end_for_start.contains_key(s)]
            after.rows.contains_key(t) && after.space_end_for_start.contains_key(s)
                && after.rows[t].height > 0 implies {
            let e = after.space_end_for_start[s];
            &&& s != t
            &&& s < e ==> t + after.rows[t].height <= s || e <= t
        } by {
            if s != rest || rest == end {
                assert(self.space_end_for_start.contains_key(s));
            }
            if t != start {
                assert(self.rows.contains_key(t));
            }
        }
        assert forall|y: int| 0 <= y < after.height implies #[trigger] after.covers(y) by {
            assert(self.covers(y));
            if start <= y < rest {
                assert(after.in_row(start, y));
            } else if rest <= y < end {
                assert(after.in_gap(rest, y));
            } else if exists|t: u32| self.in_row(t, y) {
                let t = choose|t: u32| self.in_row(t, y);
                assert(after.in_row(t, y));
            } else {
                let s = choose|s: u32| self.in_gap(s, y);
                assert(self.in_gap(s, y));
                assert(after.in_gap(s, y));
            }
        }
    }

    /// Opening a row puts it at the back of the list.
    proof fn lemma_opened_order(self, start: u32, height: u32)
        requires
            self.order_wf(),
        ensures
            self.opened(start, height).order_wf(),
    {
        let after = self.opened(start, height);
        if self.rows.contains_key(start) {
            lemma_moved_to_back(self.order, start);
        } else {
            assert(!self.order.contains(start));
            assert forall|t: u32| #[trigger] after.order.contains(t) <==> after.rows.contains_key(
                t,
            ) by {
                if self.order.contains(t) {
                    let i = choose|i: int| 0 <= i < self.order.len() && self.order[i] == t;
                    assert(after.order[i] == t);
                }
                assert(after.order[self.order.len() as int] == start);
                if after.order.contains(t) && t != start {
                    let i = choose|i: int| 0 <= i < after.order.len() && after.order[i] == t;
                    assert(self.order[i] == t);
                    assert(self.order.contains(t));
                }
            }
        }
    }

    /// A row can be opened where a gap starts, and the cache stays well-formed. If there
    /// was a row, it had no lines.
    pub proof fn lemma_opened(self, start: u32, height: u32)
        requires
            self.wf(),
            self.is_gap(start, height as int),
        ensures
            self.opened(start, height).wf(),
            self.rows.contains_key(start) ==> self.rows[start].height == 0,
            start + height <= self.height,
    {
        let after = self.opened(start, height);
        assert(self.space_end_for_start.contains_key(start));
        self.lemma_opened_order(start, height);
        assert forall|t: u32| #[trigger] after.rows.contains_key(t) implies after.row_wf(t) by {
            if self.rows.contains_key(t) {
                assert(self.row_wf(t));
                assert forall|j: int| 0 <= j < after.rows[t].glyphs.len() implies after.cell_wf(
                    t,
                    (#[trigger] after.rows[t].glyphs[j]).tex_coords,
                ) by {
                    assert(self.cell_wf(t, self.rows[t].glyphs[j].tex_coords));
                }
                assert forall|j: int, k: int|
                    0 <= j < k < after.rows[t].glyphs.len() implies stand_side_by_side(
                    (#[trigger] after.rows[t].glyphs[j]).tex_coords,
                    (#[trigger] after.rows[t].glyphs[k]).tex_coords,
                ) by {
                    assert(stand_side_by_side(
                        self.rows[t].glyphs[j].tex_coords,
                        self.rows[t].glyphs[k].tex_coords,
                    ));
                }
            }
        }
        if height > 0 {
            self.lemma_opened_gaps(start, height);
        } else {
            self.lemma_opened_flat(start);
        }
        assert forall|key: u128, e: TreeEntry|
            after.all_glyphs.contains_key(key) && #[trigger] after.all_glyphs[key].contains(
                e,
            ) implies after.is_located(key, e) by {
            assert(self.is_located(key, e));
        }
    }

    /// A glyph can be placed in a row that has room for it, and the cache stays
    /// well-formed.
    pub proof fn lemma_placed(
        self,
        top: u32,
        width: u32,
        height: u32,
        font_glyph: (usize, GlyphId),
        glyph: PositionedGlyph,
    )
        requires
            self.wf(),
            self.rows.contains_key(top),
            self.rows[top].glyphs.len() < usize::MAX,
            self.row_fits(top, width as int, height as int),
            self.pad_glyphs ==> 2 <= width && 2 <= height,
        ensures
            self.placed(top, width, height, font_glyph, glyph).wf(),
    {
        let row = self.rows[top];
        let after = self.placed(top, width, height, font_glyph, glyph);
        let key = font_glyph_key_spec(font_glyph);
        let tree = self.tree(key);
        let spec = glyph.spec();
        let n = row.glyphs.len() as usize;
        lemma_moved_to_back(self.order, top);
        assert(self.row_wf(top));
        assert forall|t: u32| #[trigger] after.rows.contains_key(t) implies after.row_wf(t) by {
            assert(self.row_wf(t));
            assert forall|j: int| 0 <= j < after.rows[t].glyphs.len() implies after.cell_wf(
                t,
                (#[trigger] after.rows[t].glyphs[j]).tex_coords,
            ) by {
                if j < self.rows[t].glyphs.len() {
                    assert(after.rows[t].glyphs[j] == self.rows[t].glyphs[j]);
                    assert(self.cell_wf(t, self.rows[t].glyphs[j].tex_coords));
                }
            }
            assert forall|j: int, k: int|
                0 <= j < k < after.rows[t].glyphs.len() implies stand_side_by_side(
                (#[trigger] after.rows[t].glyphs[j]).tex_coords,
                (#[trigger] after.rows[t].glyphs[k]).tex_coords,
            ) by {
                assert(after.rows[t].glyphs[j] == self.rows[t].glyphs[j]);
                assert(self.cell_wf(t, self.rows[t].glyphs[j].tex_coords));
                if k < self.rows[t].glyphs.len() {
                    assert(after.rows[t].glyphs[k] == self.rows[t].glyphs[k]);
                }
            }
        }
        assert(after.gaps_wf());
        assert(after.rows_apart());
        assert forall|y: int| 0 <= y < after.height implies #[trigger] after.covers(y) by {
            assert(self.covers(y));
            if exists|t: u32| self.in_row(t, y) {
                let t = choose|t: u32| self.in_row(t, y);
                assert(after.in_row(t, y));
            } else {
                let s = choose|s: u32| self.in_gap(s, y);
                assert(after.in_gap(s, y));
            }
        }
        assert(ascending(tree));
        lemma_inserted(tree, spec, top, n);
        assert forall|k: u128, e: TreeEntry|
            after.all_glyphs.contains_key(k) && #[trigger] after.all_glyphs[k].contains(
                e,
            ) implies after.is_located(k, e) by {
            if k == key && !(tree.contains(e) && e.rank() != spec.rank_spec()) {
                assert(e.row == top && e.index == n);
                assert(after.info(e).font_glyph == font_glyph);
            } else {
                assert(self.all_glyphs[k].contains(e));
                assert(self.is_located(k, e));
                assert(after.info(e) == self.info(e));
            }
        }
    }
}

} // verus!
