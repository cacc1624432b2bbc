//! Queueing and caching glyphs.

use gpu_cache::arithmetic::Arithmetic;
use gpu_cache::cache::{Cache, CacheBuilder};
use gpu_cache::error::{CacheReadErr, CacheWriteErr};
use gpu_cache::geometry::{point, Rect};
use gpu_cache::glyph::{GlyphId, PositionedGlyph};
use gpu_cache::reading::{DrawnBounds, TextureMatch};
use gpu_cache::single::Single;
use gpu_cache::upload::Upload;

fn single(number: f32) -> Single {
    Single {
        bits: number.to_bits(),
    }
}

fn number(single: Single) -> f32 {
    f32::from_bits(single.bits)
}

fn arithmetic() -> Arithmetic<
    impl Fn(Single, Single) -> Single,
    impl Fn(Single, Single) -> Single,
    impl Fn(Single, Single) -> Single,
> {
    Arithmetic {
        difference: |a: Single, b: Single| single(number(a) - number(b)),
        quotient: |a: Single, b: Single| single(number(a) / number(b)),
        sum: |a: Single, b: Single| single(number(a) + number(b)),
    }
}

/// A letter of a font whose em is a square of side 1: its number, its advance, and
/// the left, top, right and bottom of its outline.
fn letter(c: char) -> (u32, f32, Option<(f32, f32, f32, f32)>) {
    match c {
        'H' => (43, 0.62, Some((0.08, -0.61, 0.54, 0.0))),
        'e' => (72, 0.48, Some((0.04, -0.46, 0.44, 0.01))),
        'l' => (79, 0.22, Some((0.07, -0.65, 0.15, 0.0))),
        'o' => (82, 0.52, Some((0.04, -0.46, 0.48, 0.01))),
        'W' => (58, 0.79, Some((0.01, -0.61, 0.78, 0.0))),
        'r' => (85, 0.35, Some((0.07, -0.46, 0.33, 0.0))),
        'd' => (71, 0.53, Some((0.04, -0.65, 0.46, 0.01))),
        '!' => (4, 0.23, Some((0.07, -0.61, 0.16, 0.01))),
        _ => (3, 0.22, None),
    }
}

fn positioned(c: char, scale: f32, x: f32, y: f32) -> PositionedGlyph {
    let (id, _, outline) = letter(c);
    let bounding_box = outline.map(|(left, top, right, bottom)| Rect {
        min: point(
            (x + left * scale).floor() as i32,
            (y + top * scale).floor() as i32,
        ),
        max: point(
            (x + right * scale).ceil() as i32,
            (y + bottom * scale).ceil() as i32,
        ),
    });
    PositionedGlyph::new(
        GlyphId(id),
        (single(scale), single(scale)),
        (single(x.fract()), single(y.fract())),
        bounding_box,
        0,
        &arithmetic(),
    )
}

fn layout(string: &str, scale: f32) -> Vec<PositionedGlyph> {
    let mut caret = 0.0;
    let mut glyphs = Vec::new();
    for c in string.chars() {
        glyphs.push(positioned(c, scale, caret, 0.0));
        caret += letter(c).1 * scale;
    }
    glyphs
}

/// A glyph that takes a box of this size, at its natural scale.
fn boxed(id: u32, width: i32, height: i32) -> PositionedGlyph {
    PositionedGlyph {
        id: GlyphId(id),
        scale: (single(20.0), single(20.0)),
        offset: (single(0.0), single(0.0)),
        bounding_box: Some(Rect {
            min: point(0, -height),
            max: point(width, 0),
        }),
        handle: id as usize,
    }
}

fn rect(x: u32, y: u32, width: u32, height: u32) -> Rect<u32> {
    Rect {
        min: point(x, y),
        max: point(x + width, y + height),
    }
}

fn plain_cache(width: u32, height: u32) -> Cache {
    Cache::new(width, height, single(0.1), single(0.1))
}

/// Caches some glyphs of one font and gives their numbers and cells.
fn cache_all(cache: &mut Cache, glyphs: &[PositionedGlyph]) -> Vec<(u32, Rect<u32>)> {
    let mut uploads: Vec<Upload> = Vec::new();
    for glyph in glyphs {
        cache.queue_glyph(0, *glyph);
    }
    assert_eq!(cache.cache_queued(&arithmetic(), &mut uploads), Ok(()));
    uploads.iter().map(|u| (u.glyph.id.0, u.rect)).collect()
}

fn tex_rect(cache: &Cache, glyph: &PositionedGlyph) -> Result<Rect<u32>, CacheReadErr> {
    cache
        .rect_for(0, glyph, &arithmetic())
        .map(|found| found.unwrap().tex_rect)
}

#[test]
fn cache_test() {
    let mut cache = Cache::new(32, 32, single(0.1), single(0.1));
    let strings = [
        ("Hello World!", 15.0),
        ("Hello World!", 14.0),
        ("Hello World!", 10.0),
        ("Hello World!", 15.0),
        ("Hello World!", 14.0),
        ("Hello World!", 10.0),
    ];
    for &(string, scale) in &strings {
        println!("Caching {:?}", (string, scale));
        for glyph in layout(string, scale) {
            cache.queue_glyph(0, glyph);
        }
        let mut uploads: Vec<Upload> = Vec::new();
        cache.cache_queued(&arithmetic(), &mut uploads).unwrap();
        for glyph in layout(string, scale) {
            let found = cache.rect_for(0, &glyph, &arithmetic()).unwrap();
            assert_eq!(found.is_some(), glyph.bounding_box.is_some());
        }
    }
}

#[test]
fn need_to_check_whole_cache() {
    let small_left = positioned('l', 10.0, 0.0, 0.0);
    let large_left = positioned('l', 10.05, 0.0, 0.0);
    let large_right = positioned('l', 10.05, -0.2, 0.0);

    let mut cache = Cache::new(32, 32, single(0.1), single(0.1));

    cache.queue_glyph(0, small_left);
    // Next line is noop since it's within the scale tolerance of small_left:
    cache.queue_glyph(0, large_left);
    cache.queue_glyph(0, large_right);

    let mut uploads: Vec<Upload> = Vec::new();
    cache.cache_queued(&arithmetic(), &mut uploads).unwrap();

    cache.rect_for(0, &small_left, &arithmetic()).unwrap();
    cache.rect_for(0, &large_left, &arithmetic()).unwrap();
    cache.rect_for(0, &large_right, &arithmetic()).unwrap();
}

#[test]
fn the_first_of_two_near_glyphs_stands_for_the_other() {
    let small_left = positioned('l', 10.0, 0.0, 0.0);
    let large_left = positioned('l', 10.05, 0.0, 0.0);
    let large_right = positioned('l', 10.05, -0.2, 0.0);
    let mut cache = Cache::new(32, 32, single(0.1), single(0.1));
    // All are equally high, so the order of the queue counts.
    let cells = cache_all(&mut cache, &[small_left, large_left, large_right]);
    assert_eq!(cells.len(), 2);

    let own = cache.rect_for(0, &small_left, &arithmetic()).unwrap().unwrap();
    assert_eq!(own.bounds, DrawnBounds::Own(small_left.bounding_box.unwrap()));
    let substitute = cache.rect_for(0, &large_left, &arithmetic()).unwrap().unwrap();
    assert_eq!(substitute.tex_rect, own.tex_rect);
    assert_eq!(
        matches!(substitute.bounds, DrawnBounds::Substitute(spec) if spec.scale.0 == single(10.0)),
        true
    );
    let right = cache.rect_for(0, &large_right, &arithmetic()).unwrap().unwrap();
    assert_eq!(right.bounds, DrawnBounds::Own(large_right.bounding_box.unwrap()));
    assert_ne!(right.tex_rect, own.tex_rect);
}

#[test]
fn glyphs_of_one_height_keep_their_order() {
    let mut cache = plain_cache(32, 32);
    let glyphs = [
        boxed(1, 4, 5),
        boxed(2, 3, 7),
        boxed(3, 2, 5),
        boxed(4, 6, 7),
        boxed(5, 1, 5),
    ];
    let order: Vec<u32> = cache_all(&mut cache, &glyphs).iter().map(|c| c.0).collect();
    assert_eq!(order, vec![2, 4, 1, 3, 5]);
}

#[test]
fn glyphs_are_packed_tallest_first() {
    let mut cache = plain_cache(32, 32);
    let cells = cache_all(&mut cache, &[boxed(1, 6, 4), boxed(2, 10, 12), boxed(3, 8, 9)]);
    assert_eq!(
        cells,
        vec![
            (2, rect(0, 0, 10, 12)),
            (3, rect(10, 0, 8, 9)),
            (1, rect(18, 0, 6, 4)),
        ]
    );
}

#[test]
fn a_full_row_is_followed_by_another() {
    let mut cache = plain_cache(32, 32);
    let cells = cache_all(&mut cache, &[boxed(1, 20, 12), boxed(2, 20, 10), boxed(3, 12, 5)]);
    // The last one fits both rows, and goes to the one that was used last.
    assert_eq!(
        cells,
        vec![
            (1, rect(0, 0, 20, 12)),
            (2, rect(0, 12, 20, 10)),
            (3, rect(20, 12, 12, 5)),
        ]
    );
}

#[test]
fn padding_takes_a_pixel_on_every_side() {
    let mut cache = CacheBuilder {
        width: 64,
        height: 64,
        ..CacheBuilder::default()
    }
    .build();
    let glyph = boxed(1, 10, 8);
    assert_eq!(cache_all(&mut cache, &[glyph]), vec![(1, rect(0, 0, 12, 10))]);
    assert_eq!(tex_rect(&cache, &glyph), Ok(rect(1, 1, 10, 8)));
}

#[test]
fn glyphs_without_a_shape_are_not_queued() {
    let mut cache = plain_cache(32, 32);
    let space = positioned(' ', 10.0, 0.0, 0.0);
    assert_eq!(cache_all(&mut cache, &[space]), vec![]);
    assert_eq!(cache.rect_for(0, &space, &arithmetic()), Ok(None));
}

#[test]
fn an_empty_queue_is_cached() {
    let mut cache = plain_cache(0, 0);
    assert_eq!(cache_all(&mut cache, &[]), vec![]);
}

#[test]
fn a_glyph_larger_than_the_texture_is_too_large() {
    for glyph in [boxed(1, 33, 5), boxed(2, 5, 33), boxed(3, 40, 40)] {
        let mut cache = plain_cache(32, 32);
        let mut uploads: Vec<Upload> = Vec::new();
        cache_all(&mut cache, &[boxed(8, 4, 4)]);
        cache.queue_glyph(0, boxed(9, 3, 3));
        cache.queue_glyph(0, glyph);
        let result = cache.cache_queued(&arithmetic(), &mut uploads);
        assert_eq!(result, Err(CacheWriteErr::GlyphTooLarge));
        // The queue is untouched, so it fails again, until it is cleared.
        let result = cache.cache_queued(&arithmetic(), &mut uploads);
        assert_eq!(result, Err(CacheWriteErr::GlyphTooLarge));
        cache.clear_queue();
        assert_eq!(cache.cache_queued(&arithmetic(), &mut uploads), Ok(()));
    }
}

#[test]
fn a_glyph_as_large_as_the_texture_fits() {
    for (width, height) in [(32, 5), (5, 32), (32, 32)] {
        let mut cache = plain_cache(32, 32);
        let glyph = boxed(1, width, height);
        let cell = rect(0, 0, width as u32, height as u32);
        // All other glyphs make room for it.
        cache_all(&mut cache, &[boxed(8, 30, 16)]);
        cache_all(&mut cache, &[boxed(9, 30, 16)]);
        assert_eq!(cache_all(&mut cache, &[glyph]), vec![(1, cell)]);
        assert_eq!(tex_rect(&cache, &glyph), Ok(cell));
        assert_eq!(cache_all(&mut cache, &[boxed(2, 3, 3)]).len(), 1);
    }
}

#[test]
fn padding_counts_towards_the_size() {
    let padded_cache = || {
        CacheBuilder {
            width: 32,
            height: 32,
            ..CacheBuilder::default()
        }
        .build()
    };
    for (width, height) in [(31, 5), (5, 31)] {
        let mut cache = padded_cache();
        let mut uploads: Vec<Upload> = Vec::new();
        cache.queue_glyph(0, boxed(1, width, height));
        let result = cache.cache_queued(&arithmetic(), &mut uploads);
        assert_eq!(result, Err(CacheWriteErr::GlyphTooLarge));
    }
    let mut cache = padded_cache();
    let glyph = boxed(1, 30, 30);
    assert_eq!(cache_all(&mut cache, &[glyph]), vec![(1, rect(0, 0, 32, 32))]);
    assert_eq!(tex_rect(&cache, &glyph), Ok(rect(1, 1, 30, 30)));
}

#[test]
fn a_glyph_of_no_height_takes_no_lines() {
    let mut cache = plain_cache(32, 32);
    let flat = boxed(1, 30, 0);
    assert_eq!(cache_all(&mut cache, &[flat]), vec![(1, rect(0, 0, 30, 0))]);
    // The next row starts where its row started, and takes it over.
    assert_eq!(
        cache_all(&mut cache, &[boxed(2, 30, 10)]),
        vec![(2, rect(0, 0, 30, 10))]
    );
    assert_eq!(tex_rect(&cache, &flat), Ok(rect(0, 0, 30, 0)));
    assert_eq!(tex_rect(&cache, &boxed(2, 30, 10)), Ok(rect(0, 0, 30, 10)));
    // It fits any row with room for its width.
    assert_eq!(
        cache_all(&mut cache, &[boxed(3, 2, 0)]),
        vec![(3, rect(30, 0, 2, 0))]
    );
    // It goes when the row goes.
    assert_eq!(
        cache_all(&mut cache, &[boxed(4, 20, 32)]),
        vec![(4, rect(0, 0, 20, 32))]
    );
    for gone in [flat, boxed(2, 30, 10), boxed(3, 2, 0)] {
        assert_eq!(tex_rect(&cache, &gone), Err(CacheReadErr::GlyphNotCached));
    }
}

#[test]
fn glyphs_of_no_height_share_a_place() {
    let mut cache = plain_cache(4, 3);
    let glyphs = [boxed(1, 3, 1), boxed(2, 3, 1), boxed(3, 3, 0), boxed(4, 3, 0)];
    assert_eq!(
        cache_all(&mut cache, &glyphs),
        vec![
            (1, rect(0, 0, 3, 1)),
            (2, rect(0, 1, 3, 1)),
            (3, rect(0, 2, 3, 0)),
            (4, rect(0, 2, 3, 0)),
        ]
    );
    // The line below them is still free.
    assert_eq!(
        cache_all(&mut cache, &[boxed(5, 4, 1)]),
        vec![(5, rect(0, 2, 4, 1))]
    );
    for glyph in &glyphs {
        assert_eq!(tex_rect(&cache, glyph).is_ok(), true);
    }
}

#[test]
fn a_row_of_no_height_makes_room_for_another() {
    let mut cache = plain_cache(4, 1);
    assert_eq!(cache_all(&mut cache, &[boxed(1, 4, 0)]), vec![(1, rect(0, 0, 4, 0))]);
    assert_eq!(cache_all(&mut cache, &[boxed(2, 4, 1)]), vec![(2, rect(0, 0, 4, 1))]);
    // There is no gap left, so the only row goes, and the line below is free again.
    assert_eq!(cache_all(&mut cache, &[boxed(3, 4, 0)]), vec![(3, rect(0, 0, 4, 0))]);
    assert_eq!(
        tex_rect(&cache, &boxed(2, 4, 1)),
        Err(CacheReadErr::GlyphNotCached)
    );
    assert_eq!(cache_all(&mut cache, &[boxed(4, 4, 1)]), vec![(4, rect(0, 0, 4, 1))]);
    assert_eq!(tex_rect(&cache, &boxed(3, 4, 0)), Ok(rect(0, 0, 4, 0)));
}

#[test]
fn a_texture_without_lines_holds_glyphs_without_height() {
    let mut cache = plain_cache(8, 0);
    assert_eq!(
        cache_all(&mut cache, &[boxed(1, 5, 0)]),
        vec![(1, rect(0, 0, 5, 0))]
    );
    assert_eq!(
        cache_all(&mut cache, &[boxed(2, 3, 0)]),
        vec![(2, rect(5, 0, 3, 0))]
    );
    // The only row makes room.
    assert_eq!(
        cache_all(&mut cache, &[boxed(3, 8, 0)]),
        vec![(3, rect(0, 0, 8, 0))]
    );
    assert_eq!(
        tex_rect(&cache, &boxed(1, 5, 0)),
        Err(CacheReadErr::GlyphNotCached)
    );
    let mut uploads: Vec<Upload> = Vec::new();
    cache.queue_glyph(0, boxed(4, 5, 1));
    let result = cache.cache_queued(&arithmetic(), &mut uploads);
    assert_eq!(result, Err(CacheWriteErr::GlyphTooLarge));
}

#[test]
fn a_glyph_is_read_where_it_was_uploaded_last() {
    let mut cache = plain_cache(26, 30);
    let glyph = boxed(1, 25, 10);
    assert_eq!(cache_all(&mut cache, &[glyph]), vec![(1, rect(0, 0, 25, 10))]);
    cache_all(&mut cache, &[boxed(2, 25, 10)]);
    cache_all(&mut cache, &[boxed(3, 25, 10)]);
    // It makes room for another, and comes back elsewhere.
    cache_all(&mut cache, &[boxed(4, 25, 10)]);
    assert_eq!(tex_rect(&cache, &glyph), Err(CacheReadErr::GlyphNotCached));
    assert_eq!(cache_all(&mut cache, &[glyph]), vec![(1, rect(0, 10, 25, 10))]);
    assert_eq!(tex_rect(&cache, &glyph), Ok(rect(0, 10, 25, 10)));
    cache_all(&mut cache, &[boxed(5, 25, 10)]);
    cache.set_scale_tolerance(single(0.2));
    cache.queue_glyph(0, boxed(6, 2, 2));
    cache.clear_queue();
    assert_eq!(tex_rect(&cache, &glyph), Ok(rect(0, 10, 25, 10)));
}

#[test]
fn a_queue_that_does_not_fit_is_refused() {
    let mut cache = plain_cache(32, 32);
    let mut uploads: Vec<Upload> = Vec::new();
    cache.queue_glyph(0, boxed(1, 20, 20));
    cache.queue_glyph(0, boxed(2, 20, 19));
    let result = cache.cache_queued(&arithmetic(), &mut uploads);
    assert_eq!(result, Err(CacheWriteErr::NoRoomForWholeQueue));
    // The first glyph was drawn by each of the two attempts.
    let drawn: Vec<(u32, Rect<u32>)> = uploads.iter().map(|u| (u.glyph.id.0, u.rect)).collect();
    assert_eq!(
        drawn,
        vec![(1, rect(0, 0, 20, 20)), (1, rect(0, 0, 20, 20))]
    );
    // The queue is untouched.
    let result = cache.cache_queued(&arithmetic(), &mut uploads);
    assert_eq!(result, Err(CacheWriteErr::NoRoomForWholeQueue));
    cache.clear_queue();
    assert_eq!(
        cache_all(&mut cache, &[boxed(2, 20, 19)]),
        vec![(2, rect(0, 0, 20, 19))]
    );
}

#[test]
fn a_refused_queue_is_refused_again_after_clearing() {
    let mut cache = plain_cache(32, 32);
    let mut uploads: Vec<Upload> = Vec::new();
    cache_all(&mut cache, &[boxed(7, 9, 9)]);
    for (id, height) in [(1, 12), (2, 12), (3, 10)] {
        cache.queue_glyph(0, boxed(id, 20, height));
    }
    for _ in 0..3 {
        let result = cache.cache_queued(&arithmetic(), &mut uploads);
        assert_eq!(result, Err(CacheWriteErr::NoRoomForWholeQueue));
        cache.clear();
    }
}

#[test]
fn a_cleared_cache_is_as_good_as_a_new_one() {
    let glyphs: Vec<PositionedGlyph> = (1..9)
        .map(|id| boxed(id, 20 - id as i32, 2 + id as i32 / 2))
        .collect();
    let mut used = plain_cache(48, 48);
    cache_all(&mut used, &layout("Hello World!", 15.0));
    cache_all(&mut used, &[boxed(90, 30, 40)]);
    used.clear();
    let mut fresh = plain_cache(48, 48);
    let cells = cache_all(&mut used, &glyphs);
    assert_eq!(cells.len(), 8);
    assert_eq!(cells, cache_all(&mut fresh, &glyphs));
    for glyph in &glyphs {
        assert_eq!(tex_rect(&used, glyph), tex_rect(&fresh, glyph));
    }
    // The tallest were drawn first, equally high ones in the order of the queue.
    let ids: Vec<u32> = cells.iter().map(|cell| cell.0).collect();
    assert_eq!(ids, vec![8, 6, 7, 4, 5, 2, 3, 1]);
}

#[test]
fn a_second_attempt_starts_from_a_cleared_cache() {
    let mut cache = plain_cache(26, 30);
    cache_all(&mut cache, &[boxed(1, 25, 8)]);
    cache_all(&mut cache, &[boxed(2, 25, 14)]);
    cache_all(&mut cache, &[boxed(3, 25, 8)]);
    assert_eq!(tex_rect(&cache, &boxed(2, 25, 14)), Ok(rect(0, 8, 25, 14)));
    // Around the row in use there is no gap of 13 lines left to make.
    let cells = cache_all(&mut cache, &[boxed(2, 25, 14), boxed(4, 25, 13)]);
    assert_eq!(
        cells,
        vec![(2, rect(0, 0, 25, 14)), (4, rect(0, 14, 25, 13))]
    );
    assert_eq!(
        tex_rect(&cache, &boxed(1, 25, 8)),
        Err(CacheReadErr::GlyphNotCached)
    );
}

#[test]
fn the_least_recently_used_row_makes_room() {
    let mut cache = plain_cache(26, 30);
    cache_all(&mut cache, &[boxed(1, 25, 10)]);
    cache_all(&mut cache, &[boxed(2, 25, 10)]);
    cache_all(&mut cache, &[boxed(3, 25, 10)]);
    // Use the first row again: now the second is the oldest.
    assert_eq!(cache_all(&mut cache, &[boxed(1, 25, 10)]), vec![]);
    assert_eq!(
        cache_all(&mut cache, &[boxed(4, 25, 10)]),
        vec![(4, rect(0, 10, 25, 10))]
    );
    assert_eq!(tex_rect(&cache, &boxed(1, 25, 10)), Ok(rect(0, 0, 25, 10)));
    assert_eq!(
        tex_rect(&cache, &boxed(2, 25, 10)),
        Err(CacheReadErr::GlyphNotCached)
    );
    assert_eq!(tex_rect(&cache, &boxed(3, 25, 10)), Ok(rect(0, 20, 25, 10)));
}

#[test]
fn gaps_next_to_each_other_are_joined() {
    let mut cache = plain_cache(26, 30);
    cache_all(&mut cache, &[boxed(1, 25, 10)]);
    cache_all(&mut cache, &[boxed(2, 25, 10)]);
    cache_all(&mut cache, &[boxed(3, 25, 10)]);
    assert_eq!(
        cache_all(&mut cache, &[boxed(4, 25, 18)]),
        vec![(4, rect(0, 0, 25, 18))]
    );
    // What the two rows leave over is used for the next.
    assert_eq!(
        cache_all(&mut cache, &[boxed(5, 25, 2)]),
        vec![(5, rect(0, 18, 25, 2))]
    );
    assert_eq!(tex_rect(&cache, &boxed(3, 25, 10)), Ok(rect(0, 20, 25, 10)));
}

#[test]
fn identical_glyphs_are_uploaded_once() {
    let mut cache = plain_cache(32, 32);
    let glyph = boxed(1, 6, 4);
    assert_eq!(
        cache_all(&mut cache, &[glyph, glyph, glyph]),
        vec![(1, rect(0, 0, 6, 4))]
    );
    assert_eq!(cache_all(&mut cache, &[glyph]), vec![]);
}

#[test]
fn fonts_are_told_apart() {
    let mut cache = plain_cache(32, 32);
    let glyph = boxed(1, 6, 4);
    let mut uploads: Vec<Upload> = Vec::new();
    cache.queue_glyph(7, glyph);
    cache.queue_glyph(8, glyph);
    assert_eq!(cache.cache_queued(&arithmetic(), &mut uploads), Ok(()));
    assert_eq!(uploads.len(), 2);
    for upload in &uploads {
        assert_eq!(
            cache.rect_for(upload.font_id, &glyph, &arithmetic()),
            Ok(Some(TextureMatch {
                tex_rect: upload.rect,
                bounds: DrawnBounds::Own(glyph.bounding_box.unwrap()),
            }))
        );
    }
    assert_eq!(
        cache.rect_for(9, &glyph, &arithmetic()),
        Err(CacheReadErr::GlyphNotCached)
    );
}

#[test]
fn earlier_uploads_stay() {
    let mut cache = plain_cache(32, 32);
    let mut uploads: Vec<Upload> = Vec::new();
    cache.queue_glyph(0, boxed(1, 6, 4));
    cache.cache_queued(&arithmetic(), &mut uploads).unwrap();
    let first = uploads.clone();
    cache.queue_glyph(0, boxed(2, 5, 3));
    cache.cache_queued(&arithmetic(), &mut uploads).unwrap();
    assert_eq!(uploads.len(), 2);
    assert_eq!(uploads[0], first[0]);
    assert_eq!(uploads[1].rect, rect(6, 0, 5, 3));
    assert_eq!(uploads[1].glyph, boxed(2, 5, 3));
}

#[test]
fn clearing_keeps_the_queue() {
    let mut cache = plain_cache(32, 32);
    let mut uploads: Vec<Upload> = Vec::new();
    let glyph = boxed(1, 6, 4);
    cache_all(&mut cache, &[glyph]);
    cache.queue_glyph(0, boxed(2, 5, 3));
    cache.clear();
    assert_eq!(tex_rect(&cache, &glyph), Err(CacheReadErr::GlyphNotCached));
    assert_eq!(cache.cache_queued(&arithmetic(), &mut uploads), Ok(()));
    assert_eq!(uploads.len(), 1);
    assert_eq!(uploads[0].rect, rect(0, 0, 5, 3));
    // The queue is empty after success.
    assert_eq!(cache.cache_queued(&arithmetic(), &mut uploads), Ok(()));
    assert_eq!(uploads.len(), 1);
}

#[test]
fn settings_are_kept() {
    let cache = CacheBuilder::default().build();
    assert_eq!(cache.dimensions(), (256, 256));
    assert_eq!(cache.scale_tolerance(), single(0.1));
    assert_eq!(cache.position_tolerance(), single(0.1));
    assert_eq!(cache.pads_glyphs(), true);
    let mut cache = Cache::new(32, 16, single(0.25), single(0.0001));
    assert_eq!(cache.dimensions(), (32, 16));
    assert_eq!(cache.scale_tolerance(), single(0.25));
    assert_eq!(cache.position_tolerance(), single(0.001));
    assert_eq!(cache.pads_glyphs(), false);
    cache.set_scale_tolerance(single(0.0005));
    cache.set_position_tolerance(single(0.5));
    assert_eq!(cache.scale_tolerance(), single(0.001));
    assert_eq!(cache.position_tolerance(), single(0.5));
}

#[test]
fn tolerances_decide_what_stands_for_what() {
    let mut cache = plain_cache(32, 32);
    let mut near = boxed(1, 6, 4);
    near.scale = (single(20.05), single(20.0));
    assert_eq!(
        cache_all(&mut cache, &[boxed(1, 6, 4)]),
        vec![(1, rect(0, 0, 6, 4))]
    );
    assert_eq!(cache_all(&mut cache, &[near]), vec![]);
    cache.set_scale_tolerance(single(0.01));
    assert_eq!(tex_rect(&cache, &near), Err(CacheReadErr::GlyphNotCached));
    assert_eq!(cache_all(&mut cache, &[near]), vec![(1, rect(6, 0, 6, 4))]);
}

#[test]
fn the_nearer_of_two_matches_is_read() {
    let mut cache = Cache::new(32, 32, single(1.0), single(1.0));
    let mut lower = boxed(1, 6, 4);
    lower.scale = (single(20.0), single(20.0));
    let mut upper = boxed(1, 7, 4);
    upper.scale = (single(21.5), single(20.0));
    cache_all(&mut cache, &[lower, upper]);
    let lower_rect = tex_rect(&cache, &lower).unwrap();
    let upper_rect = tex_rect(&cache, &upper).unwrap();
    assert_ne!(lower_rect, upper_rect);
    let mut asked = boxed(1, 6, 4);
    asked.scale = (single(20.625), single(20.0));
    assert_eq!(tex_rect(&cache, &asked), Ok(lower_rect));
    asked.scale = (single(20.875), single(20.0));
    assert_eq!(tex_rect(&cache, &asked), Ok(upper_rect));
    // Of two that are equally near, the upper one is taken.
    asked.scale = (single(20.75), single(20.0));
    let found = cache.rect_for(0, &asked, &arithmetic()).unwrap().unwrap();
    assert_eq!(found.tex_rect, upper_rect);
    assert_eq!(
        matches!(found.bounds, DrawnBounds::Substitute(spec) if spec.scale.0 == single(21.5)),
        true
    );
}

#[test]
fn a_glyph_of_no_finite_scale_is_never_found() {
    let mut cache = plain_cache(32, 32);
    let mut glyph = boxed(1, 6, 4);
    glyph.scale = (single(f32::NAN), single(20.0));
    assert_eq!(cache_all(&mut cache, &[glyph]), vec![(1, rect(0, 0, 6, 4))]);
    assert_eq!(tex_rect(&cache, &glyph), Err(CacheReadErr::GlyphNotCached));
    glyph.scale = (single(f32::INFINITY), single(20.0));
    assert_eq!(cache_all(&mut cache, &[glyph]), vec![(1, rect(6, 0, 6, 4))]);
    assert_eq!(tex_rect(&cache, &glyph), Err(CacheReadErr::GlyphNotCached));
}

#[test]
fn errors_have_descriptions() {
    assert_eq!(CacheReadErr::GlyphNotCached.description(), "Glyph not cached");
    assert_eq!(CacheWriteErr::GlyphTooLarge.description(), "Glyph too large");
    assert_eq!(
        CacheWriteErr::NoRoomForWholeQueue.description(),
        "No room for whole queue"
    );
}
