//! End-to-end scenarios through the full pipeline: rasterize, locate ink,
//! normalize. Coordinates are fixed-point with 16 sub-units per canvas unit;
//! intensities are numerators over 36100.

use digit_ink::inkbox::bbox_of_hi;
use digit_ink::pipeline::canvas_to_pixels;
use digit_ink::raster::{rasterize_strokes_to_hi, Frame, Pt, FP};

fn pt(x: i64, y: i64) -> Pt {
    Pt { x: x * FP, y: y * FP }
}

fn frame_420() -> Frame {
    Frame { ox: 0, oy: 0, w: 420 * FP, h: 420 * FP }
}

fn run(strokes: Vec<Vec<Pt>>, sizes: Vec<i64>, current: Vec<Pt>, current_size: i64) -> Vec<u32> {
    canvas_to_pixels(&frame_420(), &strokes, &sizes, &current, current_size)
}

fn nonzero_cells(out: &[u32]) -> Vec<(usize, usize)> {
    let mut cells = Vec::new();
    for y in 0..28 {
        for x in 0..28 {
            if out[y * 28 + x] > 0 {
                cells.push((x, y));
            }
        }
    }
    cells
}

#[test]
fn output_is_784_values_in_range() {
    let strokes = vec![
        vec![pt(100, 200), pt(300, 200)],
        vec![pt(50, 50), pt(120, 180), pt(260, 300)],
    ];
    let out = run(strokes, vec![10 * FP, 6 * FP], vec![pt(30, 400), pt(90, 380)], 8 * FP);
    assert_eq!(out.len(), 784);
    for &v in &out {
        assert!(v <= 36100);
    }
}

#[test]
fn empty_stroke_set_gives_all_zeros() {
    let out = run(vec![], vec![], vec![], 10 * FP);
    assert_eq!(out.len(), 784);
    assert!(out.iter().all(|&v| v == 0));
}

#[test]
fn stroke_outside_frame_gives_all_zeros() {
    let strokes = vec![vec![pt(500, 200), pt(600, 250)]];
    let out = run(strokes, vec![10 * FP], vec![], 10 * FP);
    assert!(out.iter().all(|&v| v == 0));
}

#[test]
fn single_point_stroke_leaves_no_mark() {
    // A tap without a drag produces no segment, hence no ink: the stroke is
    // dropped, which is the documented policy.
    let strokes = vec![vec![pt(200, 200)]];
    let out = run(strokes, vec![10 * FP], vec![pt(100, 100)], 10 * FP);
    assert!(out.iter().all(|&v| v == 0));
}

#[test]
fn horizontal_stroke_band_lands_in_expected_rows_and_columns() {
    // Scenario: one horizontal stroke from (100, 200) to (300, 200), brush
    // radius 10, in a 420x420 frame.
    let strokes = vec![vec![pt(100, 200), pt(300, 200)]];
    let out = run(strokes, vec![10 * FP], vec![], 10 * FP);
    let cells = nonzero_cells(&out);
    assert!(!cells.is_empty());
    let min_col = cells.iter().map(|c| c.0).min().unwrap();
    let max_col = cells.iter().map(|c| c.0).max().unwrap();
    let min_row = cells.iter().map(|c| c.1).min().unwrap();
    let max_row = cells.iter().map(|c| c.1).max().unwrap();
    // The band sits in the middle rows of the 28x28 grid...
    assert!(min_row >= 12 && max_row <= 16, "rows {min_row}..{max_row}");
    // ...and spans most of the horizontal extent of the 20x20 inner region.
    assert!(min_col >= 4 && max_col <= 24, "cols {min_col}..{max_col}");
    assert!(min_col <= 9, "left edge at {min_col}");
    assert!(max_col >= 18, "right edge at {max_col}");
}

#[test]
fn corner_ink_crops_without_fault() {
    // Ink touching the extreme corner of the buffer: the crop window clamps
    // at the edge and the output is still a valid 28x28 image.
    let strokes = vec![vec![pt(1, 1), pt(10, 10)]];
    let out = run(strokes, vec![5 * FP], vec![], 10 * FP);
    assert_eq!(out.len(), 784);
    assert!(out.iter().any(|&v| v > 0));
    for &v in &out {
        assert!(v <= 36100);
    }
    let far = vec![vec![pt(410, 410), pt(419, 419)]];
    let out2 = run(far, vec![5 * FP], vec![], 10 * FP);
    assert_eq!(out2.len(), 784);
    assert!(out2.iter().any(|&v| v > 0));
}

#[test]
fn doubling_brush_radius_grows_ink_bounding_box() {
    let f = frame_420();
    let stroke = vec![pt(100, 200), pt(300, 200)];
    let hi1 = rasterize_strokes_to_hi(&f, &vec![stroke.clone()], &vec![10 * FP], &vec![], 16);
    let hi2 = rasterize_strokes_to_hi(&f, &vec![stroke], &vec![20 * FP], &vec![], 16);
    let b1 = bbox_of_hi(&hi1).unwrap();
    let b2 = bbox_of_hi(&hi2).unwrap();
    let area1 = (b1.max_x - b1.min_x + 1) * (b1.max_y - b1.min_y + 1);
    let area2 = (b2.max_x - b2.min_x + 1) * (b2.max_y - b2.min_y + 1);
    assert!(area2 > area1, "area {area1} -> {area2}");
    assert!(b2.min_x <= b1.min_x && b2.max_x >= b1.max_x);
    assert!(b2.min_y <= b1.min_y && b2.max_y >= b1.max_y);
}

#[test]
fn scale_invariance_within_interpolation_tolerance() {
    // The same shape drawn at twice the size with twice the brush radius
    // normalizes to nearly the same 20x20 inner content.
    let shape1 = vec![pt(60, 60), pt(60, 160), pt(160, 160)];
    let shape2 = vec![pt(120, 120), pt(120, 320), pt(320, 320)];
    let out1 = run(vec![shape1], vec![6 * FP], vec![], 16);
    let out2 = run(vec![shape2], vec![12 * FP], vec![], 16);
    let mut total_diff: u64 = 0;
    for y in 4..24 {
        for x in 4..24 {
            let a = out1[y * 28 + x] as i64;
            let b = out2[y * 28 + x] as i64;
            let d = (a - b).unsigned_abs();
            assert!(d <= 18050, "pixel ({x},{y}) differs by {d}");
            total_diff += d;
        }
    }
    let mean = total_diff / 400;
    assert!(mean <= 3610, "mean difference {mean}");
}
