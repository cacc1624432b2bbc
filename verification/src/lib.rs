//! A packed texture of recently used glyphs.
//!
//! Applications that render with a graphics API draw text from glyphs that were
//! rendered ahead of time. This crate decides which glyphs a texture holds and where,
//! with the goal of minimising the size and frequency of uploads to it. Glyphs stand
//! in rows. When a glyph is asked for it is found in its row if it is there. Otherwise
//! room is made for it, if necessary at the expense of the rows that have not been
//! used for longest, and the caller is told what to draw where.
//!
//! The intended usage is to queue up the glyphs of a frame with
//! [`cache::Cache::queue_glyph`], make sure that they are in the texture with
//! [`cache::Cache::cache_queued`], upload what that asks for, and then look up each
//! glyph with [`cache::Cache::rect_for`].
//!
//! Scales, offsets and tolerances are single-precision numbers. The crate holds them by
//! their bit patterns ([`single::Single`]) and is handed the arithmetic on them
//! ([`arithmetic::Arithmetic`]).
//!
//! [`model::CacheView`] is what a cache holds, [`caching::caches_queue`] and
//! [`reading::reads`] say what caching and looking up do to it, and [`laws`] states
//! what follows.

pub mod arithmetic;
pub mod byte_array;
pub mod cache;
pub mod caching;
pub mod collections;
pub mod error;
pub mod geometry;
pub mod glyph;
pub mod glyph_tree;
pub mod invariants;
pub mod laws;
pub mod model;
pub mod nearness;
pub mod passes;
pub mod reading;
pub mod row;
pub mod scale_offset;
pub mod single;
pub mod upload;
