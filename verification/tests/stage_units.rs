//! Unit tests for the individual pipeline stages: rasterizer, ink locator,
//! bilinear resize, block-average downsample.

use digit_ink::inkbox::bbox_of_hi;
use digit_ink::normalize::{downsample_hi_to_28, hi_to_mnist28, resize_bilinear};
use digit_ink::raster::{draw_one, rasterize_strokes_to_hi, splat_disk, Frame, Pt, HI_N, HI_W};

fn blank_hi() -> Vec<bool> {
    vec![false; HI_N]
}

#[test]
fn bbox_of_blank_buffer_is_none() {
    assert!(bbox_of_hi(&blank_hi()).is_none());
}

#[test]
fn bbox_of_single_pixel_is_that_pixel() {
    let mut hi = blank_hi();
    hi[7 * HI_W + 5] = true;
    let b = bbox_of_hi(&hi).unwrap();
    assert_eq!((b.min_x, b.min_y, b.max_x, b.max_y), (5, 7, 5, 7));
}

#[test]
fn bbox_is_tightest_over_scattered_pixels() {
    let mut hi = blank_hi();
    hi[10 * HI_W + 30] = true;
    hi[200 * HI_W + 12] = true;
    hi[57 * HI_W + 279] = true;
    let b = bbox_of_hi(&hi).unwrap();
    assert_eq!((b.min_x, b.min_y, b.max_x, b.max_y), (12, 10, 279, 200));
}

#[test]
fn horizontal_stroke_bbox_is_exact() {
    // One stroke from (100, 200) to (300, 200), radius 10, frame 420x420:
    // the mapped centerline sits at row 2133/16 with mapped radius 106
    // sub-units, giving exactly this pixel box.
    let f = Frame { ox: 0, oy: 0, w: 420 * 16, h: 420 * 16 };
    let stroke = vec![Pt { x: 100 * 16, y: 200 * 16 }, Pt { x: 300 * 16, y: 200 * 16 }];
    let hi = rasterize_strokes_to_hi(&f, &vec![stroke], &vec![10 * 16], &vec![], 16);
    let b = bbox_of_hi(&hi).unwrap();
    assert_eq!((b.min_x, b.min_y, b.max_x, b.max_y), (60, 127, 206, 139));
}

#[test]
fn splat_disk_marks_exactly_the_covered_centers() {
    let mut buf = blank_hi();
    // Disk at the center of pixel (10, 10) with radius one pixel.
    splat_disk(&mut buf, 10 * 16 + 8, 10 * 16 + 8, 16);
    assert!(buf[10 * HI_W + 10]);
    assert!(buf[10 * HI_W + 9]);
    assert!(buf[10 * HI_W + 11]);
    assert!(buf[9 * HI_W + 10]);
    assert!(buf[11 * HI_W + 10]);
    // The diagonal neighbor's center is 16 * sqrt(2) away: not covered.
    assert!(!buf[9 * HI_W + 9]);
    assert!(!buf[11 * HI_W + 11]);
}

#[test]
fn draw_one_ignores_strokes_with_fewer_than_two_points() {
    let f = Frame { ox: 0, oy: 0, w: 420 * 16, h: 420 * 16 };
    let mut buf = blank_hi();
    draw_one(&vec![], 10 * 16, &f, &mut buf);
    assert!(buf.iter().all(|&v| !v));
    draw_one(&vec![Pt { x: 200 * 16, y: 200 * 16 }], 10 * 16, &f, &mut buf);
    assert!(buf.iter().all(|&v| !v));
}

#[test]
fn resize_single_column_propagates_constant_rows() {
    // A one-column source: every destination column must read that column.
    let src = vec![true, false, true, false];
    let out = resize_bilinear(&src, 1, 4);
    assert_eq!(out.len(), 400);
    for dy in 0..20 {
        let first = out[dy * 20];
        for dx in 0..20 {
            assert_eq!(out[dy * 20 + dx], first);
        }
    }
    // Corner-aligned: the first destination row reads source row 0 exactly.
    assert_eq!(out[0], 361);
    // The last destination row reads source row 3 exactly.
    assert_eq!(out[19 * 20], 0);
}

#[test]
fn resize_fully_inked_source_is_fully_inked() {
    let src = vec![true; 30 * 30];
    let out = resize_bilinear(&src, 30, 30);
    assert!(out.iter().all(|&v| v == 361));
}

#[test]
fn downsample_averages_each_block() {
    let mut hi = blank_hi();
    // Fill the whole block at (0, 0).
    for y in 0..10 {
        for x in 0..10 {
            hi[y * HI_W + x] = true;
        }
    }
    // Five pixels in the block at grid cell (1, 0).
    for x in 10..15 {
        hi[0 * HI_W + x] = true;
    }
    let out = downsample_hi_to_28(&hi);
    assert_eq!(out.len(), 784);
    assert_eq!(out[0], 36100);
    assert_eq!(out[1], 5 * 361);
    assert_eq!(out[2], 0);
}

#[test]
fn normalize_blank_buffer_is_all_zero() {
    let out = hi_to_mnist28(&blank_hi());
    assert_eq!(out.len(), 784);
    assert!(out.iter().all(|&v| v == 0));
}

#[test]
fn normalize_keeps_borders_blank() {
    // Whatever the ink, the pasted content stays within the centered 20x20
    // region: the four-pixel border is always zero.
    let f = Frame { ox: 0, oy: 0, w: 420 * 16, h: 420 * 16 };
    let stroke = vec![Pt { x: 40 * 16, y: 60 * 16 }, Pt { x: 350 * 16, y: 300 * 16 }];
    let hi = rasterize_strokes_to_hi(&f, &vec![stroke], &vec![12 * 16], &vec![], 16);
    let out = hi_to_mnist28(&hi);
    assert!(out.iter().any(|&v| v > 0));
    for y in 0..28 {
        for x in 0..28 {
            if y < 4 || y >= 24 || x < 4 || x >= 24 {
                assert_eq!(out[y * 28 + x], 0, "border pixel ({x},{y})");
            }
        }
    }
}
