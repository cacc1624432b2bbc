# gpu_cache

A glyph cache for text rendering: it decides which glyphs a texture holds, where they
stand in it, and which of them make room for others. Written and proved in Verus.

* `src/` is the cache. It is verified.
  * `cache.rs` holds `Cache` and `CacheBuilder`.
  * `model.rs` says what a cache holds and what is true of it at all times,
    `caching.rs` and `reading.rs` what caching a queue and looking up a glyph do.
  * `laws/` states what holds of the cache as a whole, for example that no two cells
    of the texture overlap, that what is read for a glyph is what was drawn for it, and
    that every glyph of a cached queue is found again. `laws/histories.rs` states it of
    every cache that the operations can lead to.
  * `collections.rs` is what the proofs rest on: the contracts of the hash maps and of
    the sort that the cache calls.
* `app/` is the side of the cache that works in floating point: it draws glyphs and
  computes texture coordinates.
* `tests/` runs the cache.
