//! What it means to look up a cached glyph.

use crate::arithmetic::Comparison;
use crate::caching::if_matching;
use crate::error::CacheReadErr;
use crate::geometry::Rect;
use crate::glyph::PositionedGlyph;
use crate::glyph_tree::{below, TreeEntry};
use crate::model::CacheView;
use crate::row::font_glyph_key_spec;
use crate::scale_offset::GlyphScaleOffset;
use crate::single::Single;
use vstd::prelude::*;

verus! {

/// Where a glyph found in the cache should be drawn.
#[derive(Clone, Copy, Debug, PartialEq, Eq)]
pub enum DrawnBounds {
    /// In the bounding box of the glyph asked for: that very glyph was found.
    Own(Rect<i32>),
    /// Where a glyph of this scale and offset would be drawn: it stands in for the
    /// one asked for.
    Substitute(GlyphScaleOffset),
}

/// A glyph found in the cache.
#[derive(Clone, Copy, Debug, PartialEq, Eq)]
pub struct TextureMatch {
    /// Its pixels in the texture, padding not included.
    pub tex_rect: Rect<u32>,
    /// Where it should be drawn.
    pub bounds: DrawnBounds,
}

/// The entry that is `step` steps down from the rank of `target`.
pub open spec fn downward(
    tree: Seq<TreeEntry>,
    target: GlyphScaleOffset,
    step: int,
) -> Option<TreeEntry> {
    let n = below(tree, target.rank_spec() + 1);
    if 0 <= step < n {
        Some(tree[n - 1 - step])
    } else {
        None
    }
}

/// The entry that is `step` steps up from the rank of `target`.
pub open spec fn upward(
    tree: Seq<TreeEntry>,
    target: GlyphScaleOffset,
    step: int,
) -> Option<TreeEntry> {
    let n = below(tree, target.rank_spec());
    if 0 <= step && n + step < tree.len() {
        Some(tree[n + step])
    } else {
        None
    }
}

/// Whether this is a possible answer to whether an entry, if there is one, matches
/// the glyph asked for.
pub open spec fn is_answer(
    cache: CacheView,
    entry: Option<TreeEntry>,
    target: GlyphScaleOffset,
    comparison: Comparison,
    answer: bool,
) -> bool {
    entry is Some ==> comparison.can_match(
        entry->0.spec,
        target,
        cache.scale_tolerance,
        cache.position_tolerance,
        answer,
    )
}

/// Whether no entry matches at the first `steps` steps.
pub open spec fn none_before(
    cache: CacheView,
    tree: Seq<TreeEntry>,
    target: GlyphScaleOffset,
    comparison: Comparison,
    steps: int,
) -> bool {
    forall|step: int|
        #![trigger downward(tree, target, step)]
        #![trigger upward(tree, target, step)]
        0 <= step < steps ==> is_answer(
            cache,
            downward(tree, target, step),
            target,
            comparison,
            false,
        ) && is_answer(cache, upward(tree, target, step), target, comparison, false)
}

/// Whether a search outward from the rank of `target` can end with these entries: at
/// the first step at which an entry matches, or beyond all entries with none.
pub open spec fn search_ends(
    cache: CacheView,
    tree: Seq<TreeEntry>,
    target: GlyphScaleOffset,
    comparison: Comparison,
    steps: int,
    lower: Option<TreeEntry>,
    upper: Option<TreeEntry>,
) -> bool {
    &&& 0 <= steps
    &&& none_before(cache, tree, target, comparison, steps)
    &&& exists|down: bool, up: bool|
        {
            &&& #[trigger] is_answer(cache, downward(tree, target, steps), target, comparison, down)
            &&& #[trigger] is_answer(cache, upward(tree, target, steps), target, comparison, up)
            &&& lower == if_matching(downward(tree, target, steps), down)
            &&& upper == if_matching(upward(tree, target, steps), up)
        }
    &&& lower is Some || upper is Some || (downward(tree, target, steps) is None && upward(
        tree,
        target,
        steps,
    ) is None)
}

/// A cell without its padding, if it has any.
pub open spec fn glyph_rect(cache: CacheView, entry: TreeEntry) -> Rect<u32> {
    let cell = cache.info(entry).tex_coords;
    if cache.pad_glyphs {
        cell.unpadded_spec()
    } else {
        cell
    }
}

/// What is handed out for an entry that stands in for the glyph asked for.
pub open spec fn substitute(cache: CacheView, entry: TreeEntry) -> TextureMatch {
    TextureMatch {
        tex_rect: glyph_rect(cache, entry),
        bounds: DrawnBounds::Substitute(entry.spec),
    }
}

/// Whether this is the one of two entries that can be found to be nearer to a glyph. Of
/// two that are equally near it is the second.
pub open spec fn is_nearer(
    cache: CacheView,
    lower: TreeEntry,
    upper: TreeEntry,
    target: GlyphScaleOffset,
    comparison: Comparison,
    found: TreeEntry,
) -> bool {
    let (s, p) = (cache.scale_tolerance, cache.position_tolerance);
    exists|l: Single, u: Single|
        {
            &&& #[trigger] comparison.can_measure(lower.spec, target, s, p, l)
            &&& #[trigger] comparison.can_measure(upper.spec, target, s, p, u)
            &&& found == if l.less_than_spec(u) {
                lower
            } else {
                upper
            }
        }
}

/// What comes of a search that ended with these entries. Where both match and are not
/// the same, the nearer is taken, and of two that are equally near the upper one.
pub open spec fn read_result(
    cache: CacheView,
    lower: Option<TreeEntry>,
    upper: Option<TreeEntry>,
    target: GlyphScaleOffset,
    bb: Rect<i32>,
    comparison: Comparison,
    result: Result<Option<TextureMatch>, CacheReadErr>,
) -> bool {
    match (lower, upper) {
        (None, None) => result == Err::<Option<TextureMatch>, CacheReadErr>(
            CacheReadErr::GlyphNotCached,
        ),
        (Some(entry), None) | (None, Some(entry)) => result == Ok::<_, CacheReadErr>(
            Some(substitute(cache, entry)),
        ),
        (Some(lower), Some(upper)) => if lower.row == upper.row && lower.index == upper.index {
            result == Ok::<_, CacheReadErr>(
                Some(
                    TextureMatch {
                        tex_rect: glyph_rect(cache, lower),
                        bounds: DrawnBounds::Own(bb),
                    },
                ),
            )
        } else {
            exists|found: TreeEntry| #[trigger]
                is_nearer(cache, lower, upper, target, comparison, found) && result == Ok::<
                    _,
                    CacheReadErr,
                >(Some(substitute(cache, found)))
        },
    }
}

/// Whether looking up a glyph can give this result. A glyph without a shape has
/// nothing to look up.
pub open spec fn reads(
    cache: CacheView,
    font_id: usize,
    glyph: PositionedGlyph,
    comparison: Comparison,
    result: Result<Option<TextureMatch>, CacheReadErr>,
) -> bool {
    let tree = cache.tree(font_glyph_key_spec((font_id, glyph.id)));
    match glyph.bounding_box {
        None => result == Ok::<Option<TextureMatch>, CacheReadErr>(None),
        Some(bb) => exists|
            steps: int,
            lower: Option<TreeEntry>,
            upper: Option<TreeEntry>,
        | #[trigger]
            search_ends(cache, tree, glyph.spec(), comparison, steps, lower, upper) && read_result(
                cache,
                lower,
                upper,
                glyph.spec(),
                bb,
                comparison,
                result,
            ),
    }
}

} // verus!
