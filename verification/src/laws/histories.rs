//! What holds of every cache that its operations can lead to.

use crate::arithmetic::{Arithmetic, Comparison};
use crate::caching::{caches_queue, with_queue};
use crate::error::CacheWriteErr;
use crate::glyph::PositionedGlyph;
use crate::laws::finding::{
    has_entry, is_read, is_read_at, law_index_stays_complete, law_index_stays_complete_otherwise,
    law_new_index_is_complete, law_queued_glyphs_are_read,
};
use crate::laws::numbers::{
    closeness, has_finite_numbers, is_size, law_arithmetic_agrees, law_closeness_is_nearness,
    measures, Size,
};
use crate::laws::showing::{has_been_drawn, law_texture_stays_current, shows};
use crate::laws::uploads::{
    index_follows, is_last_upload, law_index_follows_uploads, law_index_follows_uploads_otherwise,
    law_last_upload_is_read,
};
use crate::model::CacheView;
use crate::nearness::{agrees, index_complete, is_nearness, knows_itself, Near};
use crate::passes::lemma_caching;
use crate::row::font_glyph_key_spec;
use crate::single::Single;
use crate::upload::Upload;
use vstd::prelude::*;

verus! {

/// A cache, and all that has been drawn into its texture.
pub struct State {
    /// The cache.
    pub cache: CacheView,
    /// The uploads, from the first one on.
    pub uploads: Seq<Upload>,
}

/// Whether a cache is as it was built.
pub open spec fn is_new(cache: CacheView) -> bool {
    &&& cache == cache.cleared()
    &&& cache.queue.len() == 0
    &&& cache.tolerances_wf()
}

/// Whether a glyph was queued.
pub open spec fn queues_glyph(
    before: CacheView,
    after: CacheView,
    queued: (usize, PositionedGlyph),
) -> bool {
    &&& queued.1.bounding_box is Some
    &&& queued.1.is_drawable()
    &&& after == with_queue(before, before.queue.push(queued))
}

/// Whether no more than the tolerances were set.
pub open spec fn sets_tolerances(before: CacheView, after: CacheView) -> bool {
    &&& after.tolerances_wf()
    &&& after == (CacheView {
        scale_tolerance: after.scale_tolerance,
        position_tolerance: after.position_tolerance,
        ..before
    })
}

/// Whether a queue was cached with this result, by answers about what matches what that
/// are those of a relation.
pub open spec fn caches(
    before: State,
    after: State,
    near: Near,
    result: Result<(), CacheWriteErr>,
    comparison: Comparison,
) -> bool {
    &&& agrees(comparison, near)
    &&& caches_queue(
        before.cache,
        before.uploads,
        after.cache,
        after.uploads,
        result,
        comparison,
    )
}

/// Whether an operation that draws nothing leads from one cache to another.
pub open spec fn is_plain_step(before: CacheView, after: CacheView) -> bool {
    ||| after == before
    ||| exists|queued: (usize, PositionedGlyph)| queues_glyph(before, after, queued)
    ||| after == with_queue(before, Seq::empty())
    ||| after == before.cleared()
    ||| sets_tolerances(before, after)
}

/// Whether an operation leads from one state to another.
pub open spec fn is_step(before: State, after: State, near: Near) -> bool {
    ||| after.uploads == before.uploads && is_plain_step(before.cache, after.cache)
    ||| exists|result: Result<(), CacheWriteErr>, comparison: Comparison| #[trigger]
        caches(before, after, near, result, comparison)
}

/// Whether these are the states of a cache from the time that it was built.
pub open spec fn is_history(states: Seq<State>, near: Near) -> bool {
    &&& states.len() > 0
    &&& is_new(states[0].cache)
    &&& forall|i: int|
        0 <= i < states.len() - 1 ==> is_step(#[trigger] states[i], states[i + 1], near)
}

/// What holds of a state at all times: the cache is well-formed, its index is complete
/// and names the cells of the last uploads, and the texture shows every cached glyph.
pub open spec fn is_sound(state: State, near: Near) -> bool {
    &&& state.cache.wf()
    &&& index_complete(state.cache, near)
    &&& index_follows(state.uploads, state.cache)
    &&& shows(state.uploads, state.cache)
}

/// An operation that draws nothing keeps a state sound.
proof fn lemma_plain_step(before: State, after: State, near: Near)
    requires
        is_sound(before, near),
        after.uploads == before.uploads,
        is_plain_step(before.cache, after.cache),
    ensures
        is_sound(after, near),
{
    let (old_cache, new_cache) = (before.cache, after.cache);
    if new_cache == old_cache.cleared() {
        old_cache.lemma_cleared();
        law_new_index_is_complete(old_cache, near);
    } else {
        assert(new_cache.queue_wf()) by {
            if exists|queued: (usize, PositionedGlyph)|
                queues_glyph(old_cache, new_cache, queued) {
                let queued = choose|queued: (usize, PositionedGlyph)|
                    queues_glyph(old_cache, new_cache, queued);
                assert forall|i: int| 0 <= i < new_cache.queue.len() implies (
                #[trigger] new_cache.queue[i]).1.bounding_box is Some
                    && new_cache.queue[i].1.is_drawable() by {
                    if i < old_cache.queue.len() {
                        assert(new_cache.queue[i] == old_cache.queue[i]);
                    }
                }
            }
        }
        old_cache.lemma_same_contents(new_cache);
        law_index_stays_complete_otherwise(old_cache, new_cache, near);
        law_index_follows_uploads_otherwise(old_cache, new_cache, before.uploads);
        assert forall|top: u32, j: int|
            #![trigger new_cache.rows[top].glyphs[j]]
            new_cache.rows.contains_key(top) && 0 <= j
                < new_cache.rows[top].glyphs.len() implies has_been_drawn(
            before.uploads,
            new_cache.rows[top].glyphs[j],
        ) by {
            assert(old_cache.rows[top].glyphs[j] == new_cache.rows[top].glyphs[j]);
        }
    }
}

/// Caching a queue keeps a state sound.
proof fn lemma_caching_step(
    before: State,
    after: State,
    near: Near,
    result: Result<(), CacheWriteErr>,
    comparison: Comparison,
)
    requires
        is_nearness(near),
        is_sound(before, near),
        caches(before, after, near, result, comparison),
    ensures
        is_sound(after, near),
{
    let (old_cache, new_cache) = (before.cache, after.cache);
    lemma_caching(old_cache, before.uploads, new_cache, after.uploads, result, comparison);
    law_index_stays_complete(
        old_cache,
        before.uploads,
        new_cache,
        after.uploads,
        result,
        comparison,
        near,
    );
    law_index_follows_uploads(
        old_cache,
        before.uploads,
        new_cache,
        after.uploads,
        result,
        comparison,
    );
    law_texture_stays_current(
        old_cache,
        before.uploads,
        new_cache,
        after.uploads,
        result,
        comparison,
    );
}

/// Every state that the operations of a cache lead to is sound.
pub proof fn law_every_state_is_sound(states: Seq<State>, near: Near, k: int)
    requires
        is_nearness(near),
        is_history(states, near),
        0 <= k < states.len(),
    ensures
        is_sound(states[k], near),
    decreases k,
{
    if k == 0 {
        states[0].cache.lemma_cleared();
        law_new_index_is_complete(states[0].cache, near);
    } else {
        let (before, after) = (states[k - 1], states[k]);
        law_every_state_is_sound(states, near, k - 1);
        assert(is_step(states[k - 1], states[k - 1 + 1], near));
        if exists|result: Result<(), CacheWriteErr>, comparison: Comparison| #[trigger]
            caches(before, after, near, result, comparison) {
            let (result, comparison) = choose|
                result: Result<(), CacheWriteErr>,
                comparison: Comparison,
            | #[trigger] caches(before, after, near, result, comparison);
            lemma_caching_step(before, after, near, result, comparison);
        } else {
            lemma_plain_step(before, after, near);
        }
    }
}

/// Whatever was done to a cache before, once a queue has been cached every glyph that
/// was in it and is near itself is read.
pub proof fn law_cached_queues_are_read(
    states: Seq<State>,
    near: Near,
    k: int,
    after: State,
    comparison: Comparison,
    queued: (usize, PositionedGlyph),
    later: Comparison,
)
    requires
        is_nearness(near),
        is_history(states, near),
        0 <= k < states.len(),
        caches(states[k], after, near, Ok(()), comparison),
        states[k].cache.queue.contains(queued),
        knows_itself(near, queued.1.spec().rank_spec()),
        agrees(later, near),
    ensures
        is_read(after.cache, queued, later),
{
    law_every_state_is_sound(states, near, k);
    law_queued_glyphs_are_read(
        states[k].cache,
        states[k].uploads,
        after.cache,
        after.uploads,
        comparison,
        near,
        queued,
        later,
    );
}

/// With arithmetic that subtracts, and whatever was done to a cache before, once a queue
/// has been cached every glyph with finite numbers that was in it is read.
pub proof fn law_finite_glyphs_are_read<S, Q, A>(
    states: Seq<State>,
    k: int,
    after: State,
    arithmetic: Arithmetic<S, Q, A>,
    size: Size,
    queued: (usize, PositionedGlyph),
)
    where
    S: Fn(Single, Single) -> Single,
    Q: Fn(Single, Single) -> Single,
    A: Fn(Single, Single) -> Single,

    requires
        is_size(size),
        measures(arithmetic.difference, size),
        is_history(states, closeness(size)),
        0 <= k < states.len(),
        caches_queue(
            states[k].cache,
            states[k].uploads,
            after.cache,
            after.uploads,
            Ok(()),
            arithmetic.comparison(),
        ),
        states[k].cache.queue.contains(queued),
        has_finite_numbers(queued.1.spec()),
    ensures
        is_read(after.cache, queued, arithmetic.comparison()),
{
    law_closeness_is_nearness(size);
    law_arithmetic_agrees(arithmetic, size);
    law_cached_queues_are_read(
        states,
        closeness(size),
        k,
        after,
        arithmetic.comparison(),
        queued,
        arithmetic.comparison(),
    );
}

/// Whatever was done to a cache, a glyph that is in it and near itself is read from the
/// pixels that its last upload filled.
pub proof fn law_last_uploads_are_read(
    states: Seq<State>,
    near: Near,
    k: int,
    queued: (usize, PositionedGlyph),
    comparison: Comparison,
    i: int,
)
    requires
        is_nearness(near),
        is_history(states, near),
        0 <= k < states.len(),
        queued.1.bounding_box is Some,
        agrees(comparison, near),
        knows_itself(near, queued.1.spec().rank_spec()),
        has_entry(states[k].cache, queued),
        is_last_upload(
            states[k].uploads,
            font_glyph_key_spec((queued.0, queued.1.id)),
            queued.1.spec().rank_spec(),
            i,
        ),
    ensures
        is_read_at(states[k].cache, queued, states[k].uploads[i].rect, comparison),
{
    law_every_state_is_sound(states, near, k);
    law_last_upload_is_read(states[k].cache, states[k].uploads, queued, comparison, near, i);
}

} // verus!
