//! Rectangles, pixel data and what the texture shows.

use gpu_cache::arithmetic::Arithmetic;
use gpu_cache::byte_array::ByteArray2d;
use gpu_cache::cache::{Cache, CacheBuilder};
use gpu_cache::error::CacheWriteErr;
use gpu_cache::geometry::{point, Rect};
use gpu_cache::glyph::{GlyphId, PositionedGlyph};
use gpu_cache::glyph_tree::GlyphTree;
use gpu_cache::scale_offset::GlyphScaleOffset;
use gpu_cache::single::Single;
use gpu_cache::upload::Upload;

fn single(number: f32) -> Single {
    Single {
        bits: number.to_bits(),
    }
}

fn number(single: Single) -> f32 {
    f32::from_bits(single.bits)
}

fn arithmetic() -> Arithmetic<
    impl Fn(Single, Single) -> Single,
    impl Fn(Single, Single) -> Single,
    impl Fn(Single, Single) -> Single,
> {
    Arithmetic {
        difference: |a: Single, b: Single| single(number(a) - number(b)),
        quotient: |a: Single, b: Single| single(number(a) / number(b)),
        sum: |a: Single, b: Single| single(number(a) + number(b)),
    }
}

fn glyph(id: u32, scale: f32, offset: f32, width: i32, height: i32) -> PositionedGlyph {
    PositionedGlyph {
        id: GlyphId(id),
        scale: (single(scale), single(scale)),
        offset: (single(offset), single(0.0)),
        bounding_box: Some(Rect {
            min: point(0, 0),
            max: point(width, height),
        }),
        handle: 0,
    }
}

fn rect(x: u32, y: u32, width: u32, height: u32) -> Rect<u32> {
    Rect {
        min: point(x, y),
        max: point(x + width, y + height),
    }
}

fn overlap(a: &Rect<u32>, b: &Rect<u32>) -> bool {
    a.min.x < b.max.x && b.min.x < a.max.x && a.min.y < b.max.y && b.min.y < a.max.y
}

#[test]
fn rectangles_have_sides() {
    let bb = Rect {
        min: point(-3, -7),
        max: point(9, 1),
    };
    assert_eq!(bb.width(), 12);
    assert_eq!(bb.height(), 8);
    assert_eq!(
        bb.moved_to(point(100, 50)),
        Rect {
            min: point(100, 50),
            max: point(112, 58)
        }
    );
}

#[test]
fn unpadding_takes_a_pixel_from_every_side() {
    assert_eq!(rect(4, 6, 5, 3).unpadded(), rect(5, 7, 3, 1));
    assert_eq!(rect(0, 0, 2, 2).unpadded(), rect(1, 1, 0, 0));
}

#[test]
fn byte_arrays_are_held_row_by_row() {
    let mut array = ByteArray2d::zeros(2, 3);
    assert_eq!(array.as_slice(), &[0, 0, 0, 0, 0, 0]);
    assert_eq!(array.get_vec_index(0, 2), 2);
    assert_eq!(array.get_vec_index(1, 1), 4);
    *array.index_mut((1, 1)) = 7;
    *array.index_mut((0, 2)) = 9;
    assert_eq!(array.as_slice(), &[0, 0, 9, 0, 7, 0]);
    assert_eq!(array[(1, 1)], 7);
    assert_eq!(array[(1, 2)], 0);
    assert_eq!(ByteArray2d::zeros(0, 3).as_slice().len(), 0);
}

#[test]
fn glyphs_are_drawn_inside_their_padding() {
    let upload = Upload {
        rect: rect(10, 20, 4, 4),
        font_id: 0,
        glyph: glyph(1, 10.0, 0.0, 2, 2),
    };
    let samples = [(0, 0, 1), (1, 0, 2), (0, 1, 3), (1, 1, 4)];
    let pixels = upload.draw(true, &samples);
    assert_eq!(
        pixels.as_slice(),
        &[
            0, 0, 0, 0, //
            0, 1, 2, 0, //
            0, 3, 4, 0, //
            0, 0, 0, 0,
        ]
    );
}

#[test]
fn glyphs_without_padding_fill_their_cells() {
    let upload = Upload {
        rect: rect(10, 20, 3, 2),
        font_id: 0,
        glyph: glyph(1, 10.0, 0.0, 3, 2),
    };
    let samples = [(0, 0, 1), (2, 0, 2), (1, 1, 3), (1, 1, 4)];
    let pixels = upload.draw(false, &samples);
    // Of two samples of one pixel the later one stays.
    assert_eq!(pixels.as_slice(), &[1, 0, 2, 0, 4, 0]);
    assert_eq!(upload.draw(false, &[]).as_slice(), &[0; 6]);
}

#[test]
fn trees_keep_their_entries_in_order() {
    let version =
        |scale: f32| GlyphScaleOffset::new((single(scale), single(1.0)), (single(0.0), single(0.0)));
    let mut tree = GlyphTree::new();
    for (i, scale) in [3.0, 1.0, 2.0, 5.0, 4.0].iter().enumerate() {
        tree.insert(version(*scale), 10, i);
    }
    let order: Vec<usize> = (0..tree.len()).map(|i| tree.get(i).index).collect();
    assert_eq!(order, vec![1, 2, 0, 4, 3]);
    assert_eq!(tree.count_below(version(3.0).rank()), 2);
    assert_eq!(tree.count_below(version(3.5).rank()), 3);
    assert_eq!(tree.count_below(version(9.0).rank()), 5);
    // An entry of the same rank gets the new place.
    tree.insert(version(2.0), 20, 7);
    assert_eq!(tree.len(), 5);
    assert_eq!((tree.get(1).row, tree.get(1).index), (20, 7));
    tree.remove(&version(2.0));
    tree.remove(&version(2.0));
    assert_eq!(tree.len(), 4);
    assert_eq!(tree.get(1).index, 0);
}

/// A texture that remembers which upload drew each pixel last.
struct Canvas {
    width: usize,
    pixels: Vec<Option<usize>>,
}

impl Canvas {
    fn draw(&mut self, number: usize, upload: &Upload) {
        for y in upload.rect.min.y..upload.rect.max.y {
            for x in upload.rect.min.x..upload.rect.max.x {
                self.pixels[y as usize * self.width + x as usize] = Some(number);
            }
        }
    }
}

/// Numbers that look random.
struct Numbers(u64);

impl Numbers {
    fn next(&mut self, below: u32) -> u32 {
        self.0 = self
            .0
            .wrapping_mul(6364136223846793005)
            .wrapping_add(1442695040888963407);
        ((self.0 >> 33) as u32) % below
    }
}

fn random_glyph(numbers: &mut Numbers) -> PositionedGlyph {
    let id = numbers.next(6);
    let scale = 10.0 + numbers.next(40) as f32 * 0.05;
    let offset = numbers.next(10) as f32 * 0.05 - 0.25;
    let width = 2 + (id * 2 + numbers.next(2)) as i32;
    let height = 3 + (id % 4 * 3 + numbers.next(3)) as i32;
    glyph(id, scale, offset, width, height)
}

/// Caches queue after queue, and looks at what the texture shows after each.
fn keeps_its_promises(pad_glyphs: bool, size: u32, rounds: u32, longest: u32) -> (u32, u32) {
    let arithmetic = arithmetic();
    let mut cache = CacheBuilder {
        width: size,
        height: size,
        pad_glyphs,
        ..CacheBuilder::default()
    }
    .build();
    let mut canvas = Canvas {
        width: size as usize,
        pixels: vec![None; (size * size) as usize],
    };
    let mut numbers = Numbers(u64::from(size));
    let mut uploads: Vec<Upload> = Vec::new();
    let mut cached = 0;
    let mut refused = 0;
    for _ in 0..rounds {
        let queue: Vec<PositionedGlyph> = (0..numbers.next(longest) + 1)
            .map(|_| random_glyph(&mut numbers))
            .collect();
        for glyph in &queue {
            cache.queue_glyph(0, *glyph);
        }
        let drawn = uploads.len();
        let result = cache.cache_queued(&arithmetic, &mut uploads);
        for (i, upload) in uploads.iter().enumerate().skip(drawn) {
            canvas.draw(i, upload);
            let bb = upload.glyph.bounding_box.unwrap();
            let padding = if pad_glyphs { 2 } else { 0 };
            assert_eq!(upload.rect.max.x - upload.rect.min.x, bb.width() as u32 + padding);
            assert_eq!(upload.rect.max.y - upload.rect.min.y, bb.height() as u32 + padding);
        }
        if result.is_err() {
            assert_eq!(result, Err(CacheWriteErr::NoRoomForWholeQueue));
            refused += 1;
            cache.clear_queue();
        } else {
            cached += 1;
        }
        for glyph in &queue {
            let found = cache.rect_for(0, glyph, &arithmetic);
            if result.is_ok() {
                assert_eq!(found.is_ok(), true);
            }
            if let Ok(Some(found)) = found {
                shows(&canvas, &uploads, glyph, &found.tex_rect);
            }
        }
    }
    (cached, refused)
}

/// Holds the pixels read for a glyph against the upload that drew them.
fn shows(canvas: &Canvas, uploads: &[Upload], glyph: &PositionedGlyph, tex_rect: &Rect<u32>) {
    let arithmetic = arithmetic();
    let corner = tex_rect.min.y as usize * canvas.width + tex_rect.min.x as usize;
    let shown = canvas.pixels[corner].unwrap();
    for y in tex_rect.min.y..tex_rect.max.y {
        for x in tex_rect.min.x..tex_rect.max.x {
            assert_eq!(canvas.pixels[y as usize * canvas.width + x as usize], Some(shown));
        }
    }
    let drawn = &uploads[shown].glyph;
    assert_eq!(drawn.id, glyph.id);
    let a = GlyphScaleOffset::new(drawn.scale, drawn.offset);
    let b = GlyphScaleOffset::new(glyph.scale, glyph.offset);
    assert_eq!(
        a.matches(&b, single(0.1), single(0.1), &arithmetic.difference),
        true
    );
}

#[test]
fn what_is_read_is_shown() {
    let (cached, refused) = keeps_its_promises(false, 64, 200, 70);
    assert_eq!(cached > 100, true);
    assert_eq!(refused > 0, true);
    let (cached, _) = keeps_its_promises(true, 64, 200, 12);
    assert_eq!(cached > 100, true);
}

#[test]
fn a_small_texture_is_cleared_and_filled_again() {
    let (cached, refused) = keeps_its_promises(false, 33, 300, 22);
    assert_eq!(cached > 100, true);
    assert_eq!(refused > 0, true);
}

#[test]
fn uploads_of_one_queue_do_not_overlap() {
    let arithmetic = arithmetic();
    let mut numbers = Numbers(1);
    for _ in 0..50 {
        let mut cache = Cache::new(128, 128, single(0.1), single(0.1));
        let mut uploads: Vec<Upload> = Vec::new();
        for _ in 0..40 {
            cache.queue_glyph(0, random_glyph(&mut numbers));
        }
        assert_eq!(cache.cache_queued(&arithmetic, &mut uploads), Ok(()));
        for (i, a) in uploads.iter().enumerate() {
            assert_eq!(a.rect.max.x <= 128 && a.rect.max.y <= 128, true);
            for b in &uploads[i + 1..] {
                assert_eq!(overlap(&a.rect, &b.rect), false);
            }
        }
    }
}

#[test]
fn caching_a_queue_again_uploads_nothing_new() {
    let arithmetic = arithmetic();
    let mut cache = Cache::new(128, 128, single(0.1), single(0.1));
    let queue: Vec<PositionedGlyph> = (0..30).map(|i| glyph(i, 10.0, 0.0, 8, 9)).collect();
    let mut uploads: Vec<Upload> = Vec::new();
    for _ in 0..3 {
        for glyph in &queue {
            cache.queue_glyph(0, *glyph);
        }
        assert_eq!(cache.cache_queued(&arithmetic, &mut uploads), Ok(()));
        assert_eq!(uploads.len(), 30);
    }
}
