//! Single-precision numbers by their bit patterns, and versions of a glyph.

use gpu_cache::arithmetic::Arithmetic;
use gpu_cache::geometry::{point, Rect};
use gpu_cache::glyph::{GlyphId, PositionedGlyph};
use gpu_cache::row::font_glyph_key;
use gpu_cache::scale_offset::{normalise_pixel_offset, GlyphScaleOffset};
use gpu_cache::single::{
    Single, DEFAULT_TOLERANCE, HALF, MINUS_HALF, ONE, SMALLEST_TOLERANCE,
};
use ordered_float::OrderedFloat;
use std::cmp::Ordering;

fn single(number: f32) -> Single {
    Single {
        bits: number.to_bits(),
    }
}

fn number(single: Single) -> f32 {
    f32::from_bits(single.bits)
}

fn arithmetic() -> Arithmetic<
    impl Fn(Single, Single) -> Single,
    impl Fn(Single, Single) -> Single,
    impl Fn(Single, Single) -> Single,
> {
    Arithmetic {
        difference: |a: Single, b: Single| single(number(a) - number(b)),
        quotient: |a: Single, b: Single| single(number(a) / number(b)),
        sum: |a: Single, b: Single| single(number(a) + number(b)),
    }
}

fn samples() -> Vec<f32> {
    vec![
        f32::NEG_INFINITY,
        f32::MIN,
        -10.5,
        -1.0,
        -0.5,
        -f32::MIN_POSITIVE,
        -1.0e-45,
        -0.0,
        0.0,
        1.0e-45,
        f32::MIN_POSITIVE,
        0.001,
        0.1,
        0.5,
        1.0,
        10.0,
        10.05,
        f32::MAX,
        f32::INFINITY,
        f32::NAN,
        -f32::NAN,
    ]
}

fn version(sx: f32, sy: f32, ox: f32, oy: f32) -> GlyphScaleOffset {
    GlyphScaleOffset::new((single(sx), single(sy)), (single(ox), single(oy)))
}

#[test]
fn constants_are_the_numbers_they_stand_for() {
    assert_eq!(SMALLEST_TOLERANCE, 0.001f32.to_bits());
    assert_eq!(DEFAULT_TOLERANCE, 0.1f32.to_bits());
    assert_eq!(HALF, 0.5f32.to_bits());
    assert_eq!(MINUS_HALF, (-0.5f32).to_bits());
    assert_eq!(ONE, 1.0f32.to_bits());
}

#[test]
fn singles_compare_like_the_numbers_they_stand_for() {
    for a in samples() {
        assert_eq!(single(a).is_nan(), a.is_nan());
        assert_eq!(single(a).is_positive(), a > 0.0);
        for t in samples() {
            let within = a.is_finite() && a.abs() <= t;
            assert_eq!(single(a).is_within(single(t)), within);
        }
        assert_eq!(single(a).abs(), single(a.abs()));
        for b in samples() {
            assert_eq!(single(a).less_than(single(b)), a < b);
            if !a.is_nan() && !b.is_nan() && a != b {
                assert_eq!(single(a).max(single(b)), single(a.max(b)));
            }
        }
    }
}

#[test]
fn places_are_in_the_order_of_ordered_floats() {
    for a in samples() {
        for b in samples() {
            assert_eq!(
                single(a).ordinal().cmp(&single(b).ordinal()),
                OrderedFloat(a).cmp(&OrderedFloat(b))
            );
        }
    }
}

#[test]
fn versions_are_in_the_order_of_their_numbers() {
    let numbers = [f32::NEG_INFINITY, -0.25, -0.0, 0.0, 10.0, f32::NAN];
    let mut versions = Vec::new();
    for &sx in &numbers {
        for &sy in &numbers {
            for &ox in &numbers {
                for &oy in &numbers {
                    versions.push((sx, sy, ox, oy));
                }
            }
        }
    }
    for &(sx, sy, ox, oy) in versions.iter().step_by(7) {
        let a = version(sx, sy, ox, oy);
        let key = (
            (OrderedFloat(sx), OrderedFloat(sy)),
            (OrderedFloat(ox), OrderedFloat(oy)),
        );
        for &(tx, ty, px, py) in versions.iter().step_by(11) {
            let b = version(tx, ty, px, py);
            let other = (
                (OrderedFloat(tx), OrderedFloat(ty)),
                (OrderedFloat(px), OrderedFloat(py)),
            );
            assert_eq!(a.cmp(&b), key.cmp(&other));
            assert_eq!(a.partial_cmp(&b), key.partial_cmp(&other));
            assert_eq!(a == b, key == other);
            assert_eq!(a.rank().cmp(&b.rank()), key.cmp(&other));
        }
    }
    assert_eq!(
        version(10.0, 0.0, 0.0, 0.0).cmp(&version(9.0, 5.0, 5.0, 5.0)),
        Ordering::Greater
    );
}

#[test]
fn a_version_keeps_its_numbers() {
    let spec = version(10.0, 11.0, -0.25, 0.5);
    assert_eq!(spec.scale, (single(10.0), single(11.0)));
    assert_eq!(spec.offset(), (single(-0.25), single(0.5)));
}

#[test]
fn matching_versions_differ_by_no_more_than_the_tolerances() {
    let arithmetic = arithmetic();
    let origin = version(10.0, 10.0, 0.0, 0.0);
    let cases = [
        (version(10.0, 10.0, 0.0, 0.0), true),
        (version(10.25, 10.0, 0.0, 0.0), true),
        (version(10.5, 10.0, 0.0, 0.0), true),
        (version(10.625, 10.0, 0.0, 0.0), false),
        (version(9.5, 10.0, 0.0, 0.0), true),
        (version(9.375, 10.0, 0.0, 0.0), false),
        (version(10.0, 9.5, 0.0, 0.0), true),
        (version(10.0, 9.375, 0.0, 0.0), false),
        (version(10.0, 10.0, 0.25, 0.0), true),
        (version(10.0, 10.0, 0.375, 0.0), false),
        (version(10.0, 10.0, 0.0, -0.25), true),
        (version(10.0, 10.0, 0.0, -0.375), false),
        (version(f32::NAN, 10.0, 0.0, 0.0), false),
        (version(10.0, 10.0, f32::INFINITY, 0.0), false),
    ];
    for (other, expected) in cases {
        let (s, p) = (single(0.5), single(0.25));
        assert_eq!(origin.matches(&other, s, p, &arithmetic.difference), expected);
        assert_eq!(other.matches(&origin, s, p, &arithmetic.difference), expected);
    }
    let nan = version(f32::NAN, 10.0, 0.0, 0.0);
    assert_eq!(
        nan.matches(&nan, single(0.5), single(0.25), &arithmetic.difference),
        false
    );
    let infinite = version(f32::INFINITY, 10.0, 0.0, 0.0);
    let tolerance = single(f32::INFINITY);
    assert_eq!(
        origin.matches(&infinite, tolerance, tolerance, &arithmetic.difference),
        false
    );
    let far = version(1.0e30, 10.0, 0.0, 0.0);
    assert_eq!(
        origin.matches(&far, tolerance, tolerance, &arithmetic.difference),
        true
    );
}

#[test]
fn a_position_tolerance_of_one_pixel_ignores_offsets() {
    let arithmetic = arithmetic();
    let offsets = [-0.5, -0.25, 0.0, 0.375, 0.5];
    for scale in [10.0, 10.125, 11.0] {
        for x in offsets {
            for y in offsets {
                let a = version(10.0, 10.0, 0.5, -0.5);
                let b = version(scale, 10.0, x, y);
                let plain = version(10.0, 10.0, 0.0, 0.0).matches(
                    &version(scale, 10.0, 0.0, 0.0),
                    single(0.125),
                    single(1.0),
                    &arithmetic.difference,
                );
                assert_eq!(
                    a.matches(&b, single(0.125), single(1.0), &arithmetic.difference),
                    plain
                );
                assert_eq!(plain, scale < 11.0);
            }
        }
    }
}

#[test]
fn matching_grows_with_the_tolerances() {
    let arithmetic = arithmetic();
    let a = version(10.0, 10.0, 0.25, 0.0);
    let b = version(10.5, 9.75, 0.0, 0.125);
    let tolerances = [1.0e-45, 0.125, 0.25, 0.5, 0.75, f32::INFINITY];
    for (i, &s) in tolerances.iter().enumerate() {
        let (s, p) = (single(s), single(0.25));
        assert_eq!(a.matches(&a, s, s, &arithmetic.difference), true);
        let answer = a.matches(&b, s, p, &arithmetic.difference);
        assert_eq!(answer, i >= 3);
        assert_eq!(b.matches(&a, s, p, &arithmetic.difference), answer);
    }
}

#[test]
fn distances_are_zero_between_equals_and_the_same_both_ways() {
    let arithmetic = arithmetic();
    let distance = |a: &GlyphScaleOffset, b: &GlyphScaleOffset| {
        number(a.match_distance(
            b,
            single(0.1),
            single(0.1),
            &arithmetic.difference,
            &arithmetic.quotient,
            &arithmetic.sum,
        ))
    };
    let versions = [
        version(10.0, 10.0, 0.0, 0.0),
        version(10.05, 10.0, 0.0, -0.0),
        version(10.1, 9.95, -0.05, 0.1),
        version(10.0, 10.0, 1.0e-45, 0.0),
        version(1.0e30, -1.0e30, 0.5, -0.5),
    ];
    for a in &versions {
        for b in &versions {
            assert_eq!(distance(a, b) >= 0.0, true);
            assert_eq!(distance(a, b), distance(b, a));
            assert_eq!(distance(a, b) == 0.0, a == b);
            if a.matches(b, single(0.1), single(0.1), &arithmetic.difference) {
                assert_eq!(distance(a, b) <= 4.0, true);
            }
        }
    }
}

#[test]
fn distances_are_measured_in_tolerances() {
    let arithmetic = arithmetic();
    let a = version(10.0, 12.0, 0.25, -0.25);
    let b = version(10.25, 11.0, 0.0, 0.25);
    let distance = a.match_distance(
        &b,
        single(0.5),
        single(0.25),
        &arithmetic.difference,
        &arithmetic.quotient,
        &arithmetic.sum,
    );
    // 0.25 / 0.5 + 1 / 0.5 + 0.25 / 0.25 + 0.5 / 0.25
    assert_eq!(distance, single(5.5));
}

#[test]
fn offsets_are_measured_from_the_nearest_grid_point() {
    let arithmetic = arithmetic();
    let cases = [
        (0.0, 0.0),
        (0.25, 0.25),
        (0.5, 0.5),
        (0.75, -0.25),
        (-0.25, -0.25),
        (-0.5, -0.5),
        (-0.75, 0.25),
    ];
    for (x, nx) in cases {
        for (y, ny) in cases {
            assert_eq!(
                normalise_pixel_offset(
                    (single(x), single(y)),
                    &arithmetic.difference,
                    &arithmetic.sum
                ),
                (single(nx), single(ny))
            );
        }
    }
}

#[test]
fn offsets_are_measured_alike_on_both_sides() {
    let arithmetic = arithmetic();
    for x in [0.0, 0.1, 0.5, 0.50001, 0.75, 0.999, 1.0, 1.0e30] {
        let measured = |x: f32| {
            let offset = (single(x), single(0.0));
            number(normalise_pixel_offset(offset, &arithmetic.difference, &arithmetic.sum).0)
        };
        assert_eq!(measured(-x), -measured(x));
    }
}

#[test]
fn a_glyph_measures_its_offset_from_the_nearest_grid_point() {
    let bounding_box = Some(Rect {
        min: point(3, -7),
        max: point(9, 1),
    });
    let glyph = PositionedGlyph::new(
        GlyphId(5),
        (single(10.0), single(12.0)),
        (single(0.75), single(-0.25)),
        bounding_box,
        17,
        &arithmetic(),
    );
    assert_eq!(glyph.id(), GlyphId(5));
    assert_eq!(glyph.scale, (single(10.0), single(12.0)));
    assert_eq!(glyph.offset, (single(-0.25), single(-0.25)));
    assert_eq!(glyph.pixel_bounding_box(), bounding_box);
    assert_eq!(glyph.handle, 17);
}

#[test]
fn only_boxes_can_be_cached() {
    let glyph = |min_x: i32, min_y: i32, max_x: i32, max_y: i32| PositionedGlyph {
        id: GlyphId(1),
        scale: (single(10.0), single(10.0)),
        offset: (single(0.0), single(0.0)),
        bounding_box: Some(Rect {
            min: point(min_x, min_y),
            max: point(max_x, max_y),
        }),
        handle: 0,
    };
    let cases = [
        (glyph(0, 0, 3, 4), true),
        (glyph(0, 0, 0, 4), true),
        (glyph(0, 4, 3, 4), true),
        (glyph(3, 0, 0, 4), false),
        (glyph(0, 4, 3, 0), false),
        (glyph(i32::MIN, 0, i32::MAX, 4), false),
        (glyph(0, -1, 3, i32::MAX), false),
    ];
    for (glyph, expected) in cases {
        assert_eq!(glyph.can_be_cached(), expected);
    }
}

#[test]
fn glyphs_of_fonts_have_keys_of_their_own() {
    let glyphs = [
        (0, GlyphId(0)),
        (0, GlyphId(1)),
        (0, GlyphId(u32::MAX)),
        (1, GlyphId(0)),
        (usize::MAX, GlyphId(u32::MAX)),
    ];
    for (i, a) in glyphs.iter().enumerate() {
        for (j, b) in glyphs.iter().enumerate() {
            assert_eq!(font_glyph_key(*a) == font_glyph_key(*b), i == j);
        }
    }
    assert_eq!(font_glyph_key((3, GlyphId(5))), 3 * 4294967296 + 5);
}
