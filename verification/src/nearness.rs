//! Which cached versions of a glyph stand for which others, and for how long.
//!
//! The answers about what matches what are taken here to come from a relation, `near`,
//! between two versions of a glyph and the two tolerances.

use crate::arithmetic::Comparison;
use crate::caching::{
    are_answers, deals_with, finds_row, lower_neighbour, matching_row, newest_fit, readies_row,
    Answers, Moment,
};
use crate::geometry::Rect;
use crate::glyph::PositionedGlyph;
use crate::glyph_tree::{
    ascending, below, holds_rank, inserted, lemma_below, lemma_holds_rank, lemma_inserted,
    TreeEntry,
};
use crate::invariants::lemma_forgotten;
use crate::model::{is_tolerance, names, names_at, CacheView};
use crate::passes::{lemma_found_row, lemma_readies_row, lemma_tree};
use crate::row::font_glyph_key_spec;
use crate::scale_offset::GlyphScaleOffset;
use crate::single::Single;
use vstd::prelude::*;

verus! {

/// A relation between two versions of a glyph at a scale and a position tolerance.
pub type Near = spec_fn(GlyphScaleOffset, GlyphScaleOffset, Single, Single) -> bool;

/// Whether the answers about what matches what are those of a relation.
pub open spec fn agrees(comparison: Comparison, near: Near) -> bool {
    forall|a: GlyphScaleOffset, b: GlyphScaleOffset, s: Single, p: Single, answer: bool| #[trigger]
        comparison.can_match(a, b, s, p, answer) ==> answer == near(a, b, s, p)
}

/// Whether all versions of this rank are near each other, at any tolerances.
pub open spec fn knows_itself(near: Near, rank: int) -> bool {
    forall|a: GlyphScaleOffset, b: GlyphScaleOffset, s: Single, p: Single|
        a.rank_spec() == rank && b.rank_spec() == rank && is_tolerance(s) && is_tolerance(p)
            ==> #[trigger] near(a, b, s, p)
}

/// Whether a relation is symmetric, and whatever is near anything is near itself.
pub open spec fn is_nearness(near: Near) -> bool {
    forall|a: GlyphScaleOffset, b: GlyphScaleOffset, s: Single, p: Single|
        is_tolerance(s) && is_tolerance(p) && #[trigger] near(a, b, s, p) ==> near(b, a, s, p)
            && knows_itself(near, a.rank_spec()) && knows_itself(near, b.rank_spec())
}

/// Whether an entry of the index names this glyph of this row.
pub open spec fn points_at(cache: CacheView, key: u128, e: TreeEntry, top: u32, j: int) -> bool {
    &&& cache.tree(key).contains(e)
    &&& e.rank() == cache.rows[top].glyphs[j].scale_offset.rank_spec()
    &&& e.row == top
    &&& e.index == j
}

/// Whether the index names this glyph of this row.
pub open spec fn is_indexed(cache: CacheView, top: u32, j: int) -> bool {
    exists|e: TreeEntry| #[trigger]
        points_at(cache, font_glyph_key_spec(cache.rows[top].glyphs[j].font_glyph), e, top, j)
}

/// Whether the index names every glyph in the texture, but for those that are not
/// near themselves.
pub open spec fn index_complete(cache: CacheView, near: Near) -> bool {
    forall|top: u32, j: int|
        #![trigger cache.rows[top].glyphs[j]]
        cache.rows.contains_key(top) && 0 <= j < cache.rows[top].glyphs.len() && knows_itself(
            near,
            cache.rows[top].glyphs[j].scale_offset.rank_spec(),
        ) ==> is_indexed(cache, top, j)
}

/// Whether an entry of the index stands for a queued glyph.
pub open spec fn stands_for(
    cache: CacheView,
    queued: (usize, PositionedGlyph),
    near: Near,
    e: TreeEntry,
) -> bool {
    &&& cache.tree(font_glyph_key_spec((queued.0, queued.1.id))).contains(e)
    &&& near(queued.1.spec(), e.spec, cache.scale_tolerance, cache.position_tolerance)
}

/// Whether the rest of a pass leaves an entry as it is: its row is in use, and it is
/// near itself.
pub open spec fn is_kept(m: Moment, near: Near, key: u128, e: TreeEntry) -> bool {
    &&& m.cache.tree(key).contains(e)
    &&& m.in_use.contains(e.row)
    &&& knows_itself(near, e.rank())
}

/// Entries of one rank are the same.
pub proof fn lemma_same_rank(tree: Seq<TreeEntry>, a: TreeEntry, b: TreeEntry)
    requires
        ascending(tree),
        tree.contains(a),
        tree.contains(b),
        a.rank() == b.rank(),
    ensures
        a == b,
{
    lemma_holds_rank(tree, a.rank());
}

/// Evicting a row takes no entry of another row out of the index, but for those that
/// are not near themselves.
pub proof fn lemma_evicted_keeps(cache: CacheView, near: Near, key: u128, e: TreeEntry)
    requires
        cache.wf(),
        index_complete(cache, near),
        cache.order.len() > 0,
        cache.tree(key).contains(e),
        knows_itself(near, e.rank()),
        e.row != cache.order[0],
    ensures
        cache.evicted().tree(key).contains(e),
        cache.evicted().info(e) == cache.info(e),
{
    let top = cache.order[0];
    let infos = cache.rows[top].glyphs;
    assert(cache.order.contains(top));
    lemma_forgotten(cache.all_glyphs, infos);
    lemma_tree(cache, key);
    if names(infos, key, e.rank()) {
        let j = choose|j: int| names_at(infos, key, e.rank(), j);
        assert(is_indexed(cache, top, j)) by {
            assert(cache.rows[top].glyphs[j] == infos[j]);
        }
        let other = choose|other: TreeEntry| #[trigger] points_at(cache, key, other, top, j);
        lemma_same_rank(cache.tree(key), e, other);
    }
    assert(cache.all_glyphs.contains_key(key));
    assert(cache.evicted().all_glyphs[key].contains(e));
}

/// Evicting a row puts no entry into the index.
pub proof fn lemma_evicted_adds_none(cache: CacheView, key: u128, e: TreeEntry)
    requires
        cache.wf(),
        cache.order.len() > 0,
        cache.evicted().tree(key).contains(e),
    ensures
        cache.tree(key).contains(e),
{
    let top = cache.order[0];
    lemma_forgotten(cache.all_glyphs, cache.rows[top].glyphs);
    assert(cache.evicted().all_glyphs.contains_key(key));
}

/// Evicting a row leaves the index complete.
pub proof fn lemma_evicted_complete(cache: CacheView, near: Near)
    requires
        cache.wf(),
        index_complete(cache, near),
        cache.order.len() > 0,
    ensures
        index_complete(cache.evicted(), near),
{
    let after = cache.evicted();
    assert forall|top: u32, j: int|
        #![trigger after.rows[top].glyphs[j]]
        after.rows.contains_key(top) && 0 <= j < after.rows[top].glyphs.len() && knows_itself(
            near,
            after.rows[top].glyphs[j].scale_offset.rank_spec(),
        ) implies is_indexed(after, top, j) by {
        let info = cache.rows[top].glyphs[j];
        assert(after.rows[top].glyphs[j] == info);
        let key = font_glyph_key_spec(info.font_glyph);
        assert(is_indexed(cache, top, j));
        let e = choose|e: TreeEntry| #[trigger] points_at(cache, key, e, top, j);
        lemma_evicted_keeps(cache, near, key, e);
        assert(points_at(after, key, e, top, j));
    }
}

/// Making room keeps the index complete, and leaves the entries of rows in use as they
/// are.
pub proof fn lemma_made_room_complete(cache: CacheView, near: Near, in_use: Set<u32>, height: int)
    requires
        cache.wf(),
        index_complete(cache, near),
    ensures
        ({
            let after = cache.made_room(in_use, height).0;
            &&& after.wf()
            &&& after.same_settings(cache)
            &&& index_complete(after, near)
            &&& forall|key: u128, e: TreeEntry| #[trigger]
                after.tree(key).contains(e) ==> cache.tree(key).contains(e)
            &&& forall|key: u128, e: TreeEntry| #[trigger]
                cache.tree(key).contains(e) && in_use.contains(e.row) && knows_itself(
                    near,
                    e.rank(),
                ) ==> after.tree(key).contains(e) && after.info(e) == cache.info(e)
        }),
    decreases cache.order.len(),
{
    if cache.order.len() > 0 && !in_use.contains(cache.order[0]) {
        let next = cache.evicted();
        cache.lemma_evicted();
        lemma_evicted_complete(cache, near);
        if !next.is_gap(cache.evicted_gap(), height) {
            lemma_made_room_complete(next, near, in_use, height);
        }
        let after = cache.made_room(in_use, height).0;
        assert forall|key: u128, e: TreeEntry| #[trigger]
            after.tree(key).contains(e) implies cache.tree(key).contains(e) by {
            assert(next.tree(key).contains(e));
            lemma_evicted_adds_none(cache, key, e);
        }
        assert forall|key: u128, e: TreeEntry| #[trigger]
            cache.tree(key).contains(e) && in_use.contains(e.row) && knows_itself(
                near,
                e.rank(),
            ) implies after.tree(key).contains(e) && after.info(e) == cache.info(e) by {
            lemma_evicted_keeps(cache, near, key, e);
            assert(next.tree(key).contains(e));
        }
    }
}

/// Opening a row changes no entry.
pub proof fn lemma_opened_complete(cache: CacheView, near: Near, start: u32, height: u32)
    requires
        cache.wf(),
        index_complete(cache, near),
        cache.is_gap(start, height as int),
    ensures
        index_complete(cache.opened(start, height), near),
        forall|key: u128| #[trigger] cache.opened(start, height).tree(key) == cache.tree(key),
        forall|key: u128, e: TreeEntry| #[trigger]
            cache.tree(key).contains(e) ==> cache.opened(start, height).info(e) == cache.info(e),
{
    let after = cache.opened(start, height);
    cache.lemma_opened(start, height);
    assert forall|top: u32, j: int|
        #![trigger after.rows[top].glyphs[j]]
        after.rows.contains_key(top) && 0 <= j < after.rows[top].glyphs.len() && knows_itself(
            near,
            after.rows[top].glyphs[j].scale_offset.rank_spec(),
        ) implies is_indexed(after, top, j) by {
        let info = cache.rows[top].glyphs[j];
        assert(after.rows[top].glyphs[j] == info);
        let key = font_glyph_key_spec(info.font_glyph);
        assert(is_indexed(cache, top, j));
        let e = choose|e: TreeEntry| #[trigger] points_at(cache, key, e, top, j);
        assert(points_at(after, key, e, top, j));
    }
    assert forall|key: u128, e: TreeEntry| #[trigger] cache.tree(key).contains(e) implies after.info(
        e,
    ) == cache.info(e) by {
        lemma_tree(cache, key);
        assert(cache.is_located(key, e));
    }
}

/// A glyph that is near itself is found where there is an entry of its rank.
pub proof fn lemma_identical_is_found(
    cache: CacheView,
    queued: (usize, PositionedGlyph),
    comparison: Comparison,
    near: Near,
    found: Option<u32>,
)
    requires
        cache.wf(),
        agrees(comparison, near),
        knows_itself(near, queued.1.spec().rank_spec()),
        finds_row(cache, queued, comparison, found),
        holds_rank(
            cache.tree(font_glyph_key_spec((queued.0, queued.1.id))),
            queued.1.spec().rank_spec(),
        ),
    ensures
        found is Some,
{
    let key = font_glyph_key_spec((queued.0, queued.1.id));
    let tree = cache.tree(key);
    let spec = queued.1.spec();
    let rank = spec.rank_spec();
    lemma_tree(cache, key);
    lemma_below(tree, rank);
    lemma_below(tree, rank + 1);
    let n = below(tree, rank);
    let m = below(tree, rank + 1);
    assert(m == n + 1) by {
        if m <= n {
            assert(tree[n].rank() >= rank + 1);
        } else if m > n + 1 {
            assert(tree[n].rank() < tree[n + 1].rank());
            assert(tree[n + 1].rank() < rank + 1);
        }
    }
    let answers = choose|answers: Answers| #[trigger]
        are_answers(cache, tree, spec, comparison, answers) && found == matching_row(
            tree,
            spec,
            answers,
        );
    assert(lower_neighbour(tree, spec) == Some(tree[n]));
    assert(near(spec, tree[n].spec, cache.scale_tolerance, cache.position_tolerance));
}

/// Placing a glyph keeps the index complete, and leaves the entries of other ranks and
/// keys as they are.
pub proof fn lemma_placed_complete(
    cache: CacheView,
    near: Near,
    top: u32,
    width: u32,
    height: u32,
    queued: (usize, PositionedGlyph),
)
    requires
        cache.wf(),
        index_complete(cache, near),
        cache.rows.contains_key(top),
        cache.rows[top].glyphs.len() < usize::MAX,
        knows_itself(near, queued.1.spec().rank_spec()) ==> !holds_rank(
            cache.tree(font_glyph_key_spec((queued.0, queued.1.id))),
            queued.1.spec().rank_spec(),
        ),
    ensures
        ({
            let after = cache.placed(top, width, height, (queued.0, queued.1.id), queued.1);
            let new_key = font_glyph_key_spec((queued.0, queued.1.id));
            let spec = queued.1.spec();
            &&& index_complete(after, near)
            &&& forall|key: u128, e: TreeEntry| #[trigger]
                cache.tree(key).contains(e) && knows_itself(near, e.rank()) ==> after.tree(
                    key,
                ).contains(e) && after.info(e) == cache.info(e)
            &&& exists|e: TreeEntry|
                {
                    &&& #[trigger] after.tree(new_key).contains(e)
                    &&& e.rank() == spec.rank_spec()
                    &&& e.row == top
                    &&& after.info(e).tex_coords == cache.cell(top, width, height)
                }
        }),
{
    let font_glyph = (queued.0, queued.1.id);
    let after = cache.placed(top, width, height, font_glyph, queued.1);
    let new_key = font_glyph_key_spec(font_glyph);
    let spec = queued.1.spec();
    let tree = cache.tree(new_key);
    let n = cache.rows[top].glyphs.len() as usize;
    lemma_tree(cache, new_key);
    lemma_inserted(tree, spec, top, n);
    lemma_holds_rank(tree, spec.rank_spec());
    assert forall|key: u128, e: TreeEntry| #[trigger]
        cache.tree(key).contains(e) && knows_itself(near, e.rank()) implies after.tree(
        key,
    ).contains(e) && after.info(e) == cache.info(e) by {
        lemma_tree(cache, key);
        assert(cache.is_located(key, e));
        if key == new_key {
            assert(e.rank() != spec.rank_spec());
            assert(inserted(tree, spec, top, n).contains(e));
        }
    }
    let fresh = after.tree(new_key)[below(tree, spec.rank_spec())];
    assert(after.tree(new_key).contains(fresh));
    assert(after.rows[top].glyphs[n as int].tex_coords == cache.cell(top, width, height));
    assert forall|t: u32, j: int|
        #![trigger after.rows[t].glyphs[j]]
        after.rows.contains_key(t) && 0 <= j < after.rows[t].glyphs.len() && knows_itself(
            near,
            after.rows[t].glyphs[j].scale_offset.rank_spec(),
        ) implies is_indexed(after, t, j) by {
        if t == top && j == n {
            assert(after.rows[t].glyphs[j].font_glyph == font_glyph);
            assert(after.rows[t].glyphs[j].scale_offset == spec);
            assert(points_at(after, new_key, fresh, t, j));
        } else {
            let info = cache.rows[t].glyphs[j];
            assert(after.rows[t].glyphs[j] == info);
            let key = font_glyph_key_spec(info.font_glyph);
            assert(is_indexed(cache, t, j));
            let e = choose|e: TreeEntry| #[trigger] points_at(cache, key, e, t, j);
            assert(cache.tree(key).contains(e));
            assert(points_at(after, key, e, t, j));
        }
    }
}

/// Touching a row changes no entry.
pub proof fn lemma_touched_complete(cache: CacheView, near: Near, top: u32)
    requires
        index_complete(cache, near),
    ensures
        index_complete(cache.touched(top), near),
{
    let after = cache.touched(top);
    assert forall|t: u32, j: int|
        #![trigger after.rows[t].glyphs[j]]
        after.rows.contains_key(t) && 0 <= j < after.rows[t].glyphs.len() && knows_itself(
            near,
            after.rows[t].glyphs[j].scale_offset.rank_spec(),
        ) implies is_indexed(after, t, j) by {
        assert(cache.rows[t].glyphs[j] == after.rows[t].glyphs[j]);
        let key = font_glyph_key_spec(cache.rows[t].glyphs[j].font_glyph);
        assert(is_indexed(cache, t, j));
        let e = choose|e: TreeEntry| #[trigger] points_at(cache, key, e, t, j);
        assert(points_at(after, key, e, t, j));
    }
}

/// Making room and opening a row in it changes no entry of a row in use.
proof fn lemma_made_room_opened_complete(
    cache: CacheView,
    near: Near,
    in_use: Set<u32>,
    height: int,
    top: u32,
)
    requires
        cache.wf(),
        index_complete(cache, near),
        0 <= height <= cache.height,
        !cache.has_gap(height),
        cache.made_room(in_use, height).1 == Some(top),
    ensures
        ({
            let ready = cache.made_room(in_use, height).0.opened(top, height as u32);
            &&& index_complete(ready, near)
            &&& forall|key: u128, e: TreeEntry| #[trigger]
                ready.tree(key).contains(e) ==> cache.tree(key).contains(e)
            &&& forall|key: u128, e: TreeEntry| #[trigger]
                cache.tree(key).contains(e) && in_use.contains(e.row) && knows_itself(
                    near,
                    e.rank(),
                ) ==> ready.tree(key).contains(e) && ready.info(e) == cache.info(e)
        }),
{
    let emptied = cache.made_room(in_use, height).0;
    let ready = emptied.opened(top, height as u32);
    cache.lemma_made_room(in_use, height);
    lemma_made_room_complete(cache, near, in_use, height);
    lemma_opened_complete(emptied, near, top, height as u32);
    assert forall|key: u128, e: TreeEntry| #[trigger] ready.tree(key).contains(e) implies cache.tree(
        key,
    ).contains(e) by {
        assert(emptied.tree(key).contains(e));
    }
    assert forall|key: u128, e: TreeEntry| #[trigger]
        cache.tree(key).contains(e) && in_use.contains(e.row) && knows_itself(
            near,
            e.rank(),
        ) implies ready.tree(key).contains(e) && ready.info(e) == cache.info(e) by {
        assert(emptied.tree(key).contains(e));
    }
}

/// A row that is found for a glyph is found without changing an entry of a row in use.
pub proof fn lemma_readies_row_complete(
    cache: CacheView,
    near: Near,
    in_use: Set<u32>,
    width: int,
    height: int,
    ready: CacheView,
    top: u32,
)
    requires
        cache.wf(),
        index_complete(cache, near),
        0 <= height <= cache.height,
        0 <= width <= cache.width,
        readies_row(cache, in_use, width, height, ready, top),
    ensures
        index_complete(ready, near),
        forall|key: u128, e: TreeEntry| #[trigger]
            ready.tree(key).contains(e) ==> cache.tree(key).contains(e),
        forall|key: u128, e: TreeEntry| #[trigger]
            cache.tree(key).contains(e) && in_use.contains(e.row) && knows_itself(near, e.rank())
                ==> ready.tree(key).contains(e) && ready.info(e) == cache.info(e),
{
    if newest_fit(cache, cache.order, width, height) is None {
        if cache.has_gap(height) {
            lemma_opened_complete(cache, near, top, height as u32);
        } else {
            lemma_made_room_opened_complete(cache, near, in_use, height, top);
        }
    }
}

/// Dealing with a glyph keeps the index complete, leaves the entries of rows in use as
/// they are, and leaves one that stands for the glyph. If the glyph was added, that
/// one names its cell.
pub proof fn lemma_deals_with_near(
    before: Moment,
    queued: (usize, PositionedGlyph),
    after: Moment,
    comparison: Comparison,
    near: Near,
)
    requires
        before.cache.wf(),
        index_complete(before.cache, near),
        agrees(comparison, near),
        is_nearness(near),
        queued.1.bounding_box is Some,
        queued.1.is_drawable(),
        deals_with(before, queued, after, comparison),
    ensures
        index_complete(after.cache, near),
        keeps_entries(before, after, near),
        knows_itself(near, queued.1.spec().rank_spec()) ==> has_stand_in(after, near, queued),
        knows_itself(near, queued.1.spec().rank_spec()) && after.uploads != before.uploads
            ==> has_own_cell(after, near, queued, after.uploads.last().rect),
{
    let cache = before.cache;
    let (width, height) = cache.padded_size(queued.1);
    let key = font_glyph_key_spec((queued.0, queued.1.id));
    let spec = queued.1.spec();
    if exists|top: u32| #[trigger]
        finds_row(cache, queued, comparison, Some(top)) && after == before.found(top) {
        let top = choose|top: u32| #[trigger]
            finds_row(cache, queued, comparison, Some(top)) && after == before.found(top);
        let e = lemma_found_row(cache, queued, comparison, top);
        lemma_touched_complete(cache, near, top);
        assert(near(spec, e.spec, cache.scale_tolerance, cache.position_tolerance));
        assert(is_kept(after, near, key, e));
        assert(stands_for(after.cache, queued, near, e));
        assert forall|k: u128, other: TreeEntry| #[trigger]
            is_kept(before, near, k, other) implies is_kept(after, near, k, other)
            && after.cache.info(other) == cache.info(other) by {
            assert(after.cache.tree(k) == cache.tree(k));
        }
    } else {
        let (ready, top) = choose|ready: CacheView, top: u32|
            {
                &&& #[trigger] readies_row(cache, before.in_use, width, height, ready, top)
                &&& ready.rows[top].glyphs.len() < usize::MAX
                &&& after == before.added(ready, top, queued)
            };
        lemma_readies_row(cache, before.in_use, width, height, ready, top);
        lemma_readies_row_complete(cache, near, before.in_use, width, height, ready, top);
        if knows_itself(near, spec.rank_spec()) && holds_rank(ready.tree(key), spec.rank_spec()) {
            let n = below(ready.tree(key), spec.rank_spec());
            lemma_tree(ready, key);
            lemma_below(ready.tree(key), spec.rank_spec());
            let e = ready.tree(key)[n];
            assert(ready.tree(key).contains(e));
            assert(cache.tree(key).contains(e));
            lemma_tree(cache, key);
            lemma_holds_rank(cache.tree(key), spec.rank_spec());
            lemma_identical_is_found(cache, queued, comparison, near, None);
        }
        lemma_placed_complete(ready, near, top, width as u32, height as u32, queued);
        assert forall|k: u128, other: TreeEntry| #[trigger]
            is_kept(before, near, k, other) implies is_kept(after, near, k, other)
            && after.cache.info(other) == cache.info(other) by {
            assert(cache.tree(k).contains(other));
            assert(ready.tree(k).contains(other));
        }
        let cell = ready.cell(top, width as u32, height as u32);
        let e = choose|e: TreeEntry|
            {
                &&& #[trigger] after.cache.tree(key).contains(e)
                &&& e.rank() == spec.rank_spec()
                &&& e.row == top
                &&& after.cache.info(e).tex_coords == cell
            };
        if knows_itself(near, spec.rank_spec()) {
            assert(cache.tolerances_wf());
            assert(near(spec, e.spec, cache.scale_tolerance, cache.position_tolerance));
            assert(is_kept(after, near, key, e));
            assert(stands_for(after.cache, queued, near, e));
            assert(after.uploads.last().rect == cell);
            assert(names_cell(after, near, queued, cell, e));
        }
    }
}

/// Whether some entry that the rest of a pass leaves as it is stands for a glyph.
pub open spec fn has_stand_in(m: Moment, near: Near, queued: (usize, PositionedGlyph)) -> bool {
    exists|e: TreeEntry| #[trigger]
        stands_for(m.cache, queued, near, e) && is_kept(
            m,
            near,
            font_glyph_key_spec((queued.0, queued.1.id)),
            e,
        )
}

/// Whether an entry that the rest of a pass leaves as it is names this cell for a
/// glyph of this very scale and offset.
pub open spec fn names_cell(
    m: Moment,
    near: Near,
    queued: (usize, PositionedGlyph),
    cell: Rect<u32>,
    e: TreeEntry,
) -> bool {
    &&& is_kept(m, near, font_glyph_key_spec((queued.0, queued.1.id)), e)
    &&& e.rank() == queued.1.spec().rank_spec()
    &&& m.cache.info(e).tex_coords == cell
}

/// Whether some entry that the rest of a pass leaves as it is names this cell for a
/// glyph.
pub open spec fn has_own_cell(
    m: Moment,
    near: Near,
    queued: (usize, PositionedGlyph),
    cell: Rect<u32>,
) -> bool {
    exists|e: TreeEntry| #[trigger] names_cell(m, near, queued, cell, e)
}

/// Whether the first `n` glyphs of a queue have stand-ins, but for those that are not
/// near themselves.
pub open spec fn has_stand_ins(
    m: Moment,
    queue: Seq<(usize, PositionedGlyph)>,
    n: int,
    near: Near,
) -> bool {
    forall|i: int|
        0 <= i < n && knows_itself(near, (#[trigger] queue[i]).1.spec().rank_spec())
            ==> has_stand_in(m, near, queue[i])
}

/// Whether all glyphs to be drawn, from this one on, have cells of their own, but for
/// those that are not near themselves.
pub open spec fn has_own_cells(m: Moment, from: int, near: Near) -> bool {
    forall|i: int|
        from <= i < m.uploads.len() && knows_itself(
            near,
            (#[trigger] m.uploads[i]).glyph.spec().rank_spec(),
        ) ==> has_own_cell(
            m,
            near,
            (m.uploads[i].font_id, m.uploads[i].glyph),
            m.uploads[i].rect,
        )
}

/// Whether what is kept at one moment is there at another, as it was.
pub open spec fn keeps_entries(before: Moment, after: Moment, near: Near) -> bool {
    &&& after.cache.scale_tolerance == before.cache.scale_tolerance
    &&& after.cache.position_tolerance == before.cache.position_tolerance
    &&& forall|key: u128, e: TreeEntry| #[trigger]
        is_kept(before, near, key, e) ==> is_kept(after, near, key, e) && after.cache.info(e)
            == before.cache.info(e)
}

/// What has a stand-in that is kept still has one.
pub proof fn lemma_keeps_stand_in(
    before: Moment,
    after: Moment,
    near: Near,
    queued: (usize, PositionedGlyph),
)
    requires
        keeps_entries(before, after, near),
        has_stand_in(before, near, queued),
    ensures
        has_stand_in(after, near, queued),
{
    let key = font_glyph_key_spec((queued.0, queued.1.id));
    let e = choose|e: TreeEntry| #[trigger]
        stands_for(before.cache, queued, near, e) && is_kept(before, near, key, e);
    assert(is_kept(after, near, key, e));
    assert(stands_for(after.cache, queued, near, e));
}

/// What has a cell of its own that is kept still has it.
pub proof fn lemma_keeps_cell(
    before: Moment,
    after: Moment,
    near: Near,
    queued: (usize, PositionedGlyph),
    cell: Rect<u32>,
)
    requires
        keeps_entries(before, after, near),
        has_own_cell(before, near, queued, cell),
    ensures
        has_own_cell(after, near, queued, cell),
{
    let e = choose|e: TreeEntry| #[trigger] names_cell(before, near, queued, cell, e);
    assert(is_kept(before, near, font_glyph_key_spec((queued.0, queued.1.id)), e));
    assert(names_cell(after, near, queued, cell, e));
}

} // verus!
