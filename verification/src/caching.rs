//! What it means to cache a queue of glyphs.
//!
//! Whether two versions of a glyph are close enough to stand for each other, and
//! how far apart they are, is computed with arithmetic that is not the cache's own.
//! The definitions here follow the answers, whatever they are. Where several gaps are
//! high enough for a new row, any of them may be taken.

use crate::arithmetic::Comparison;
use crate::collections::{of_height, tallest_first};
use crate::error::CacheWriteErr;
use crate::glyph::PositionedGlyph;
use crate::glyph_tree::{below, TreeEntry};
use crate::model::CacheView;
use crate::row::font_glyph_key_spec;
use crate::scale_offset::GlyphScaleOffset;
use crate::single::Single;
use crate::upload::Upload;
use vstd::prelude::*;

verus! {

/// The entry with the greatest rank up to that of `spec`.
pub open spec fn lower_neighbour(tree: Seq<TreeEntry>, spec: GlyphScaleOffset) -> Option<
    TreeEntry,
> {
    let n = below(tree, spec.rank_spec() + 1);
    if n > 0 {
        Some(tree[n - 1])
    } else {
        None
    }
}

/// The entry with the least rank from that of `spec` on.
pub open spec fn upper_neighbour(tree: Seq<TreeEntry>, spec: GlyphScaleOffset) -> Option<
    TreeEntry,
> {
    let n = below(tree, spec.rank_spec());
    if n < tree.len() {
        Some(tree[n])
    } else {
        None
    }
}

/// An entry, if it was found to match.
pub open spec fn if_matching(entry: Option<TreeEntry>, answer: bool) -> Option<TreeEntry> {
    if answer {
        entry
    } else {
        None
    }
}

/// What was answered about the two neighbours of a glyph in the index.
pub struct Answers {
    /// Whether the glyph matches the lower neighbour.
    pub lower: bool,
    /// Whether the glyph matches the upper neighbour.
    pub upper: bool,
    /// How far the lower neighbour is from the glyph.
    pub lower_distance: Single,
    /// How far the upper neighbour is from the glyph.
    pub upper_distance: Single,
}

/// The row of the matching neighbour: the only one, or the nearer of two. Of two
/// that are equally near, the upper one is taken.
pub open spec fn matching_row(
    tree: Seq<TreeEntry>,
    spec: GlyphScaleOffset,
    answers: Answers,
) -> Option<u32> {
    match (
        if_matching(lower_neighbour(tree, spec), answers.lower),
        if_matching(upper_neighbour(tree, spec), answers.upper),
    ) {
        (None, None) => None,
        (None, Some(upper)) => Some(upper.row),
        (Some(lower), None) => Some(lower.row),
        (Some(lower), Some(upper)) => if lower.row == upper.row {
            Some(lower.row)
        } else if answers.lower_distance.less_than_spec(answers.upper_distance) {
            Some(lower.row)
        } else {
            Some(upper.row)
        },
    }
}

/// Whether these are possible answers about the neighbours of a glyph. Distances are
/// asked for where the two neighbours match and stand in different rows.
pub open spec fn are_answers(
    cache: CacheView,
    tree: Seq<TreeEntry>,
    spec: GlyphScaleOffset,
    comparison: Comparison,
    answers: Answers,
) -> bool {
    let (s, p) = (cache.scale_tolerance, cache.position_tolerance);
    let lower = lower_neighbour(tree, spec);
    let upper = upper_neighbour(tree, spec);
    &&& lower is Some ==> comparison.can_match(spec, lower->0.spec, s, p, answers.lower)
    &&& upper is Some ==> comparison.can_match(spec, upper->0.spec, s, p, answers.upper)
    &&& (lower is Some && answers.lower && upper is Some && answers.upper && lower->0.row
        != upper->0.row) ==> {
        &&& comparison.can_measure(lower->0.spec, spec, s, p, answers.lower_distance)
        &&& comparison.can_measure(upper->0.spec, spec, s, p, answers.upper_distance)
    }
}

/// Whether looking for a cached version of a glyph can find it in this row, or
/// nowhere.
pub open spec fn finds_row(
    cache: CacheView,
    queued: (usize, PositionedGlyph),
    comparison: Comparison,
    found: Option<u32>,
) -> bool {
    let tree = cache.tree(font_glyph_key_spec((queued.0, queued.1.id)));
    exists|answers: Answers| #[trigger]
        are_answers(cache, tree, queued.1.spec(), comparison, answers) && found
            == matching_row(tree, queued.1.spec(), answers)
}

/// The most recently used of some rows that has room for a glyph of this size.
pub open spec fn newest_fit(cache: CacheView, order: Seq<u32>, width: int, height: int) -> Option<
    u32,
>
    decreases order.len(),
{
    if order.len() == 0 {
        None
    } else if cache.row_fits(order.last(), width, height) {
        Some(order.last())
    } else {
        newest_fit(cache, order.drop_last(), width, height)
    }
}

/// Whether a glyph is too large for the texture, even if that holds no other.
pub open spec fn too_large(cache: CacheView, glyph: PositionedGlyph) -> bool {
    let (width, height) = cache.padded_size(glyph);
    width > cache.width || height > cache.height
}

/// Whether a glyph of this size can get a place in the row at `top` of `ready`: a row
/// of the cache if one has room for it, else a new row in a gap, else a new row in
/// the gap that evicting rows leaves. A new row is as high as the glyph.
pub open spec fn readies_row(
    cache: CacheView,
    in_use: Set<u32>,
    width: int,
    height: int,
    ready: CacheView,
    top: u32,
) -> bool {
    match newest_fit(cache, cache.order, width, height) {
        Some(fit) => ready == cache && top == fit,
        None => {
            if cache.has_gap(height) {
                cache.is_gap(top, height) && ready == cache.opened(top, height as u32)
            } else {
                let (emptied, gap) = cache.made_room(in_use, height);
                gap == Some(top) && ready == emptied.opened(top, height as u32)
            }
        },
    }
}

/// The state in the middle of a pass over the queue.
#[verifier::ext_equal]
pub struct Moment {
    /// The cache.
    pub cache: CacheView,
    /// The rows of the glyphs that the pass has dealt with.
    pub in_use: Set<u32>,
    /// The glyphs to be drawn into the texture, in order.
    pub uploads: Seq<Upload>,
}

impl Moment {
    /// The moment after finding a glyph in a row.
    pub open spec fn found(self, top: u32) -> Moment {
        Moment {
            cache: self.cache.touched(top),
            in_use: self.in_use.insert(top),
            uploads: self.uploads,
        }
    }

    /// The moment after adding a glyph to a row of `ready`.
    pub open spec fn added(
        self,
        ready: CacheView,
        top: u32,
        queued: (usize, PositionedGlyph),
    ) -> Moment {
        let (width, height) = self.cache.padded_size(queued.1);
        Moment {
            cache: ready.placed(
                top,
                width as u32,
                height as u32,
                (queued.0, queued.1.id),
                queued.1,
            ),
            in_use: self.in_use.insert(top),
            uploads: self.uploads.push(
                Upload {
                    rect: ready.cell(top, width as u32, height as u32),
                    font_id: queued.0,
                    glyph: queued.1,
                },
            ),
        }
    }
}

/// Whether a glyph that is not cached can be added. The glyphs of its row can still
/// be counted afterwards.
pub open spec fn adds(before: Moment, queued: (usize, PositionedGlyph), after: Moment) -> bool {
    let (width, height) = before.cache.padded_size(queued.1);
    &&& !too_large(before.cache, queued.1)
    &&& exists|ready: CacheView, top: u32|
        {
            &&& #[trigger] readies_row(before.cache, before.in_use, width, height, ready, top)
            &&& ready.rows[top].glyphs.len() < usize::MAX
            &&& after == before.added(ready, top, queued)
        }
}

/// Whether dealing with a glyph can lead from one moment to the next: the row where
/// it is found is used again, or it is not found and added.
pub open spec fn deals_with(
    before: Moment,
    queued: (usize, PositionedGlyph),
    after: Moment,
    comparison: Comparison,
) -> bool {
    ||| exists|top: u32| #[trigger]
        finds_row(before.cache, queued, comparison, Some(top)) && after == before.found(top)
    ||| finds_row(before.cache, queued, comparison, None) && adds(before, queued, after)
}

/// Whether a pass can stop because a glyph is too large.
pub open spec fn refuses(
    before: Moment,
    queued: (usize, PositionedGlyph),
    comparison: Comparison,
) -> bool {
    &&& finds_row(before.cache, queued, comparison, None)
    &&& too_large(before.cache, queued.1)
}

/// Whether a pass can stop because the row to be evicted for a glyph is in use. Rows
/// before it have been evicted.
pub open spec fn is_stuck(
    before: Moment,
    queued: (usize, PositionedGlyph),
    after: Moment,
    comparison: Comparison,
) -> bool {
    let (width, height) = before.cache.padded_size(queued.1);
    let (emptied, gap) = before.cache.made_room(before.in_use, height);
    &&& finds_row(before.cache, queued, comparison, None)
    &&& !too_large(before.cache, queued.1)
    &&& newest_fit(before.cache, before.cache.order, width, height) is None
    &&& !before.cache.has_gap(height)
    &&& gap is None
    &&& after == (Moment { cache: emptied, ..before })
}

/// How a pass over the queue ends.
#[derive(Clone, Copy, Debug, PartialEq, Eq, Structural)]
pub enum PassEnd {
    /// All glyphs are cached.
    Done,
    /// A glyph is too large for the texture.
    TooLarge,
    /// The next row to be evicted is in use.
    Stuck,
}

/// Whether the moments of a run follow one from another, glyph by glyph.
pub open spec fn is_run(
    queue: Seq<(usize, PositionedGlyph)>,
    run: Seq<Moment>,
    comparison: Comparison,
) -> bool {
    &&& 0 < run.len() <= queue.len() + 1
    &&& forall|i: int|
        0 <= i < run.len() - 1 ==> deals_with(
            #[trigger] run[i],
            queue[i],
            run[i + 1],
            comparison,
        )
}

/// Where a pass starts.
pub open spec fn start_of_pass(cache: CacheView, uploads: Seq<Upload>) -> Moment {
    Moment { cache, in_use: Set::empty(), uploads }
}

/// Whether a run is one of a whole pass with this end.
pub open spec fn is_run_of_pass(
    cache: CacheView,
    uploads: Seq<Upload>,
    run: Seq<Moment>,
    after: Moment,
    end: PassEnd,
    comparison: Comparison,
) -> bool {
    &&& is_run(cache.queue, run, comparison)
    &&& run[0] == start_of_pass(cache, uploads)
    &&& match end {
        PassEnd::Done => run.len() == cache.queue.len() + 1 && after == run.last(),
        PassEnd::TooLarge => {
            &&& run.len() <= cache.queue.len()
            &&& refuses(run.last(), cache.queue[run.len() - 1], comparison)
            &&& after == run.last()
        },
        PassEnd::Stuck => {
            &&& run.len() <= cache.queue.len()
            &&& is_stuck(run.last(), cache.queue[run.len() - 1], after, comparison)
        },
    }
}

/// Whether a pass over the queue of a cache can lead to this moment and this end.
pub open spec fn is_pass(
    cache: CacheView,
    uploads: Seq<Upload>,
    after: Moment,
    end: PassEnd,
    comparison: Comparison,
) -> bool {
    exists|run: Seq<Moment>| #[trigger]
        is_run_of_pass(cache, uploads, run, after, end, comparison)
}

/// Whether two caches differ only in the order of their queues, and that of the
/// second is by height. Glyphs of one height are in the same order in both.
pub open spec fn sorts_queue(cache: CacheView, sorted: CacheView) -> bool {
    &&& sorted == (CacheView { queue: sorted.queue, ..cache })
    &&& sorted.queue.to_multiset() == cache.queue.to_multiset()
    &&& tallest_first(sorted.queue)
    &&& forall|height: int| #[trigger]
        of_height(sorted.queue, height) == of_height(cache.queue, height)
}

/// The cache with another queue.
pub open spec fn with_queue(cache: CacheView, queue: Seq<(usize, PositionedGlyph)>) -> CacheView {
    CacheView { queue, ..cache }
}

/// Whether caching a queue leaves this cache and gives these uploads and this result
/// where the last pass led to this moment and this end. The queue is empty after
/// success. After an error it is what it was.
pub open spec fn ends_caching(
    queue: Seq<(usize, PositionedGlyph)>,
    last: Moment,
    end: PassEnd,
    after: CacheView,
    uploads: Seq<Upload>,
    result: Result<(), CacheWriteErr>,
) -> bool {
    &&& uploads == last.uploads
    &&& match end {
        PassEnd::Done => {
            &&& result == Ok::<(), CacheWriteErr>(())
            &&& after == with_queue(last.cache, Seq::empty())
        },
        PassEnd::TooLarge => {
            &&& result == Err::<(), CacheWriteErr>(CacheWriteErr::GlyphTooLarge)
            &&& after == with_queue(last.cache, queue)
        },
        PassEnd::Stuck => {
            &&& result == Err::<(), CacheWriteErr>(CacheWriteErr::NoRoomForWholeQueue)
            &&& after == with_queue(last.cache, queue)
        },
    }
}

/// Whether the second attempt, on the cleared cache and over the same sorted queue, can
/// end caching like this.
pub open spec fn caches_after_clearing(
    queue: Seq<(usize, PositionedGlyph)>,
    stuck: Moment,
    after: CacheView,
    uploads: Seq<Upload>,
    result: Result<(), CacheWriteErr>,
    comparison: Comparison,
) -> bool {
    exists|last: Moment, end: PassEnd|
        {
            &&& #[trigger] is_pass(stuck.cache.cleared(), stuck.uploads, last, end, comparison)
            &&& ends_caching(queue, last, end, after, uploads, result)
        }
}

/// Whether caching a queue can lead from one cache to another, with these uploads and
/// this result: a pass over the queue, tallest glyphs first, and if it gets stuck
/// another one in the same order on the cleared cache.
pub open spec fn caches_queue(
    before: CacheView,
    uploads_before: Seq<Upload>,
    after: CacheView,
    uploads: Seq<Upload>,
    result: Result<(), CacheWriteErr>,
    comparison: Comparison,
) -> bool {
    exists|sorted: CacheView, last: Moment, end: PassEnd|
        {
            &&& sorts_queue(before, sorted)
            &&& #[trigger] is_pass(sorted, uploads_before, last, end, comparison)
            &&& if end == PassEnd::Stuck {
                caches_after_clearing(before.queue, last, after, uploads, result, comparison)
            } else {
                ends_caching(before.queue, last, end, after, uploads, result)
            }
        }
}

} // verus!
