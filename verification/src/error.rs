//! Why the cache could not do what it was asked for.

use vstd::prelude::*;

verus! {

/// Returned from `Cache::rect_for`.
#[derive(Copy, Clone, Debug, PartialEq, Eq, PartialOrd, Ord, Structural)]
pub enum CacheReadErr {
    /// Indicates that the requested glyph is not present in the cache
    GlyphNotCached,
}

impl CacheReadErr {
    /// The error in words.
    pub fn description(&self) -> (words: &'static str)
        ensures
            words@ == "Glyph not cached"@,
    {
        match *self {
            CacheReadErr::GlyphNotCached => "Glyph not cached",
        }
    }
}

/// Returned from `Cache::cache_queued`.
#[derive(Copy, Clone, Debug, PartialEq, Eq, PartialOrd, Ord, Structural)]
pub enum CacheWriteErr {
    /// At least one of the queued glyphs is too big to fit into the cache, even
    /// if all other glyphs are removed.
    GlyphTooLarge,
    /// Not all of the requested glyphs can fit into the cache, even if the
    /// cache is completely cleared before the attempt.
    NoRoomForWholeQueue,
}

impl CacheWriteErr {
    /// The error in words.
    pub fn description(&self) -> (words: &'static str)
        ensures
            match *self {
                CacheWriteErr::GlyphTooLarge => words@ == "Glyph too large"@,
                CacheWriteErr::NoRoomForWholeQueue => words@ == "No room for whole queue"@,
            },
    {
        match *self {
            CacheWriteErr::GlyphTooLarge => "Glyph too large",
            CacheWriteErr::NoRoomForWholeQueue => "No room for whole queue",
        }
    }
}

} // verus!
