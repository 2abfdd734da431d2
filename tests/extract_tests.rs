use colorgram::{extract, palette_from_rgb8, rank_buckets, Color, ExtractError, Hsl, Rgb};
use image::{DynamicImage, ImageFormat, RgbImage};
use std::io::Cursor;

fn png_of(img: RgbImage) -> Vec<u8> {
    let mut bytes: Vec<u8> = Vec::new();
    DynamicImage::ImageRgb8(img)
        .write_to(&mut Cursor::new(&mut bytes), ImageFormat::Png)
        .unwrap();
    bytes
}

fn proportion(c: &Color) -> f32 {
    c.weight as f32 / c.total_weight as f32
}

// The original fixture image is not shipped with the crate: a uniform image
// of its dominant color stands in for it, so the large request returns the
// one bucket that image fills rather than the fixture's 35.
#[test]
fn test_extract() {
    let buf = png_of(RgbImage::from_pixel(8, 6, image::Rgb([214, 163, 101])));
    let colors = extract(&buf, 1).unwrap();

    assert_eq!(
        colors,
        vec![Color {
            rgb: Rgb {
                r: 214,
                g: 163,
                b: 101
            },
            hsl: Hsl {
                h: 23,
                s: 147,
                l: 157
            },
            weight: 48,
            total_weight: 48,
        }]
    );
    assert_eq!(proportion(&colors[0]), 1.0);

    let colors = extract(&buf, 1000).unwrap();
    assert_eq!(colors.len(), 1);
}

#[test]
fn more_colors_requested_than_buckets() {
    // Black, white and red fall in three different buckets.
    let mut img = RgbImage::new(3, 2);
    img.put_pixel(0, 0, image::Rgb([0, 0, 0]));
    img.put_pixel(1, 0, image::Rgb([0, 0, 0]));
    img.put_pixel(2, 0, image::Rgb([0, 0, 0]));
    img.put_pixel(0, 1, image::Rgb([255, 255, 255]));
    img.put_pixel(1, 1, image::Rgb([255, 255, 255]));
    img.put_pixel(2, 1, image::Rgb([255, 0, 0]));
    let colors = extract(&png_of(img), 1000).unwrap();
    assert_eq!(colors.len(), 3);
    assert_eq!(colors[0].rgb, Rgb { r: 0, g: 0, b: 0 });
    assert_eq!(colors[1].rgb, Rgb { r: 255, g: 255, b: 255 });
    assert_eq!(colors[2].rgb, Rgb { r: 255, g: 0, b: 0 });
    assert_eq!(colors[0].weight, 3);
    assert_eq!(colors[1].weight, 2);
    assert_eq!(colors[2].weight, 1);
    let total: f32 = colors.iter().map(proportion).sum();
    assert!((total - 1.0).abs() < 1e-6);
    for c in &colors {
        assert_eq!(c.total_weight, 6);
        assert_eq!(c.hsl, colorgram::rgb_to_hsl(&c.rgb));
    }
}

#[test]
fn proportions_count_only_returned_colors() {
    let raw = vec![0, 0, 0, 0, 0, 0, 0, 0, 0, 255, 255, 255, 255, 255, 255, 255, 0, 0];
    let colors = palette_from_rgb8(&raw, 2);
    assert_eq!(colors.len(), 2);
    assert_eq!(colors[0].weight, 3);
    assert_eq!(colors[1].weight, 2);
    assert_eq!(colors[0].total_weight, 5);
    assert_eq!(colors[1].total_weight, 5);
    assert!((proportion(&colors[0]) - 0.6).abs() < 1e-6);
    assert!((proportion(&colors[1]) - 0.4).abs() < 1e-6);
}

#[test]
fn corrupt_buffer_is_a_decode_error() {
    let r = extract(&[0x89, b'P', b'N', b'G', 1, 2, 3, 4, 5], 3);
    assert!(matches!(r, Err(ExtractError::Decode(_))));
    let r = extract(&[], 3);
    assert!(matches!(r, Err(ExtractError::Decode(_))));
}

#[test]
fn zero_colors_requested() {
    let buf = png_of(RgbImage::from_pixel(2, 2, image::Rgb([10, 20, 30])));
    assert_eq!(extract(&buf, 0).unwrap(), Vec::<Color>::new());
}

#[test]
fn bucket_mean_truncates() {
    // (255, 0, 0) and (250, 0, 0) share a bucket; the mean red 252.5 truncates.
    let colors = palette_from_rgb8(&[255, 0, 0, 250, 0, 0], 5);
    assert_eq!(
        colors,
        vec![Color {
            rgb: Rgb { r: 252, g: 0, b: 0 },
            hsl: Hsl { h: 0, s: 255, l: 126 },
            weight: 2,
            total_weight: 2,
        }]
    );
}

#[test]
fn equal_counts_rank_by_smaller_key() {
    // White has a larger key than black; both hold one pixel.
    let colors = palette_from_rgb8(&[255, 255, 255, 0, 0, 0], 1);
    assert_eq!(colors.len(), 1);
    assert_eq!(colors[0].rgb, Rgb { r: 0, g: 0, b: 0 });
}

#[test]
fn trailing_partial_pixel_ignored() {
    let colors = palette_from_rgb8(&[0, 0, 0, 255, 255], 4);
    assert_eq!(colors.len(), 1);
    assert_eq!(colors[0].weight, 1);
    assert!(palette_from_rgb8(&[], 4).is_empty());
}

#[test]
fn luminance_splits_same_hue_and_lightness() {
    // Pure green and pure red share lightness 127 but differ in luminance
    // and hue, so they stay apart.
    let colors = palette_from_rgb8(&[0, 255, 0, 255, 0, 0], 4);
    assert_eq!(colors.len(), 2);
}

#[test]
fn rank_buckets_orders_by_count_then_key() {
    let mut counts = vec![0u64; 4096];
    counts[7] = 5;
    counts[3] = 2;
    counts[9] = 5;
    counts[100] = 1;
    assert_eq!(rank_buckets(&counts, 10), vec![7, 9, 3, 100]);
    assert_eq!(rank_buckets(&counts, 2), vec![7, 9]);
    assert_eq!(rank_buckets(&counts, 0), Vec::<usize>::new());
}
