//! The whole pipeline in one call — rasterize, locate the ink, normalize —
//! together with the laws that hold of it: an empty sketch and a sketch kept
//! away from the canvas yield the all-zero image, a stroke of fewer than two
//! points leaves no mark, and a wider brush covers every pixel a narrower
//! one covers.

use vstd::prelude::*;
use crate::inkbox::{has_ink, ink_at};
use crate::normalize::{hi_to_mnist28, norm_pix};
use crate::raster::{
    all_blank, covers, draw_polyline_upto, draw_stroke, frame_ok, lemma_grid_index_inv,
    lemma_sample_range, map_radius, mapped_x, pt_ok, radius_ok, raster_upto,
    rasterize_strokes_to_hi, sample_coord, size_at, spec_rasterize, stamp, stamp_samples, Frame,
    Pt,
};

verus! {

/// Run the full pipeline: rasterize every stroke into the 280x280 coverage
/// buffer, locate the ink, and normalize to the 28x28 image. The result
/// always holds exactly 784 intensities, each an exact numerator over 36100
/// within `[0, 36100]`.
pub fn canvas_to_pixels(
    frame: &Frame,
    strokes: &Vec<Vec<Pt>>,
    sizes: &Vec<i64>,
    current: &Vec<Pt>,
    current_size: i64,
) -> (out: Vec<u32>)
    requires
        frame_ok(*frame),
        forall|s: int, k: int|
            0 <= s < strokes@.len() && 0 <= k < strokes@[s]@.len() ==> pt_ok(strokes@[s]@[k]),
        forall|s: int| 0 <= s < sizes@.len() ==> radius_ok(sizes@[s]),
        radius_ok(current_size),
        forall|k: int| 0 <= k < current@.len() ==> pt_ok(current@[k]),
    ensures
        out@.len() == 784,
        forall|j: int| 0 <= j < 784 ==> 0 <= #[trigger] out@[j] <= 36100,
        forall|j: int|
            0 <= j < 784 ==> out@[j] as int == norm_pix(
                spec_rasterize(
                    *frame,
                    strokes@.map_values(|s: Vec<Pt>| s@),
                    sizes@,
                    current@,
                    current_size,
                ),
                j,
            ),
{
    let hi = rasterize_strokes_to_hi(frame, strokes, sizes, current, current_size);
    hi_to_mnist28(&hi)
}

/// The blank buffer carries no ink.
pub proof fn lemma_blank_no_ink()
    ensures
        !has_ink(all_blank()),
{
    assert forall|x: int, y: int|
        0 <= x < 280 && 0 <= y < 280 implies !ink_at(all_blank(), x, y) by {
        lemma_grid_index_inv(x, y);
    }
}

/// An empty sketch — no committed strokes and no stroke in progress —
/// rasterizes to the blank buffer, and every pixel of its normalized image
/// is zero.
pub proof fn lemma_empty_sketch_zero(f: Frame, sizes: Seq<i64>, current_size: i64, j: int)
    requires
        0 <= j < 784,
    ensures
        spec_rasterize(f, Seq::<Seq<Pt>>::empty(), sizes, Seq::<Pt>::empty(), current_size)
            == all_blank(),
        norm_pix(
            spec_rasterize(f, Seq::<Seq<Pt>>::empty(), sizes, Seq::<Pt>::empty(), current_size),
            j,
        ) == 0,
{
    lemma_blank_no_ink();
}

/// A stroke of fewer than two points — empty, or a single tap — leaves the
/// buffer untouched.
pub proof fn lemma_short_stroke_no_mark(buf: Seq<bool>, pts: Seq<Pt>, r: int, f: Frame)
    requires
        pts.len() < 2,
    ensures
        draw_stroke(buf, pts, r, f) == buf,
{
}

/// Growing the brush radius only grows each stamped disk: every pixel the
/// narrower disk covers, the wider one covers too.
pub proof fn lemma_covers_monotone_radius(cx: int, cy: int, r1: int, r2: int, x: int, y: int)
    requires
        0 <= r1 <= r2,
        covers(cx, cy, r1, x, y),
    ensures
        covers(cx, cy, r2, x, y),
{
    assert(r1 * r1 <= r2 * r2) by (nonlinear_arith)
        requires
            0 <= r1 <= r2,
    ;
}

/// Every point of the stroke maps at least the mapped brush radius beyond
/// the buffer's right edge (4480 sub-units).
pub open spec fn stroke_off_right(pts: Seq<Pt>, r: int, f: Frame) -> bool {
    forall|k: int|
        0 <= k < pts.len() ==> #[trigger] mapped_x(pts[k], f) >= 4480 + map_radius(r, f.w as int)
}

/// A disk stamped at least its radius beyond the right edge reaches no
/// pixel center, so it leaves the buffer untouched.
proof fn lemma_stamp_off_right(buf: Seq<bool>, cx: int, cy: int, r: int)
    requires
        buf.len() == 78400,
        0 <= r,
        cx >= 4480 + r,
    ensures
        stamp(buf, cx, cy, r) == buf,
{
    assert forall|i: int| 0 <= i < 78400 implies stamp(buf, cx, cy, r)[i] == buf[i] by {
        crate::raster::lemma_grid_index(i);
        let px = i % 280;
        let py = i / 280;
        let dx = 16 * px + 8 - cx;
        assert(dx <= -r - 8);
        assert(dx * dx > r * r) by (nonlinear_arith)
            requires
                0 <= r,
                dx <= -r - 8,
        ;
        assert(!covers(cx, cy, r, px, py)) by {
            let dy = 16 * py + 8 - cy;
            assert(dy * dy >= 0) by (nonlinear_arith);
        }
    }
    assert(stamp(buf, cx, cy, r) =~= buf);
}

/// Every sample of a segment whose endpoints map beyond the right edge also
/// maps beyond it, so stamping the segment leaves the buffer untouched.
proof fn lemma_samples_off_right(
    buf: Seq<bool>,
    ax: int,
    ay: int,
    bx: int,
    by: int,
    r: int,
    steps: int,
    n: int,
)
    requires
        buf.len() == 78400,
        0 <= r,
        ax >= 4480 + r,
        bx >= 4480 + r,
        0 <= n <= steps + 1,
    ensures
        stamp_samples(buf, ax, ay, bx, by, r, steps, n) == buf,
    decreases n,
{
    if n > 0 {
        lemma_samples_off_right(buf, ax, ay, bx, by, r, steps, n - 1);
        lemma_sample_range(ax, bx, n - 1, steps);
        lemma_stamp_off_right(
            buf,
            sample_coord(ax, bx, n - 1, steps),
            sample_coord(ay, by, n - 1, steps),
            r,
        );
    }
}

/// A stroke whose every point maps at least the brush radius beyond the
/// buffer's right edge leaves the buffer untouched.
pub proof fn lemma_stroke_off_right(buf: Seq<bool>, pts: Seq<Pt>, r: int, f: Frame)
    requires
        buf.len() == 78400,
        stroke_off_right(pts, r, f),
    ensures
        draw_stroke(buf, pts, r, f) == buf,
{
    if pts.len() >= 2 {
        lemma_polyline_off_right(buf, pts, r, f, pts.len() - 1);
    }
}

/// Helper for `lemma_stroke_off_right`: segment by segment.
proof fn lemma_polyline_off_right(buf: Seq<bool>, pts: Seq<Pt>, r: int, f: Frame, k: int)
    requires
        buf.len() == 78400,
        stroke_off_right(pts, r, f),
        k < pts.len(),
    ensures
        draw_polyline_upto(buf, pts, r, f, k) == buf,
    decreases k,
{
    if k > 0 {
        lemma_polyline_off_right(buf, pts, r, f, k - 1);
        let rr = map_radius(r, f.w as int);
        let steps = crate::raster::seg_steps(
            mapped_x(pts[k - 1], f),
            crate::raster::mapped_y(pts[k - 1], f),
            mapped_x(pts[k], f),
            crate::raster::mapped_y(pts[k], f),
            rr,
        );
        lemma_steps_nonneg(
            mapped_x(pts[k - 1], f),
            crate::raster::mapped_y(pts[k - 1], f),
            mapped_x(pts[k], f),
            crate::raster::mapped_y(pts[k], f),
            rr,
        );
        lemma_samples_off_right(
            buf,
            mapped_x(pts[k - 1], f),
            crate::raster::mapped_y(pts[k - 1], f),
            mapped_x(pts[k], f),
            crate::raster::mapped_y(pts[k], f),
            rr,
            steps,
            steps + 1,
        );
    }
}

/// A segment's step count is never negative.
proof fn lemma_steps_nonneg(ax: int, ay: int, bx: int, by: int, r: int)
    ensures
        crate::raster::seg_steps(ax, ay, bx, by, r) >= 0,
{
    let d2 = (bx - ax) * (bx - ax) + (by - ay) * (by - ay);
    assert((bx - ax) * (bx - ax) + (by - ay) * (by - ay) >= 0) by (nonlinear_arith);
    crate::fixed::lemma_sqrt_ceil_exists(d2);
    let dist = crate::fixed::sqrt_ceil(d2);
    let stp = if r / 2 > 16 {
        r / 2
    } else {
        16
    };
    vstd::arithmetic::div_mod::lemma_div_pos_is_pos(dist + stp - 1, stp);
}

/// A sketch kept at least its brush radius beyond the buffer's right edge —
/// every committed stroke and the stroke in progress — rasterizes to the
/// blank buffer, and every pixel of its normalized image is zero.
pub proof fn lemma_sketch_off_frame_zero(
    f: Frame,
    strokes: Seq<Seq<Pt>>,
    sizes: Seq<i64>,
    current: Seq<Pt>,
    current_size: i64,
    j: int,
)
    requires
        forall|s: int|
            0 <= s < strokes.len() ==> #[trigger] stroke_off_right(
                strokes[s],
                size_at(sizes, s),
                f,
            ),
        stroke_off_right(current, current_size as int, f),
        0 <= j < 784,
    ensures
        spec_rasterize(f, strokes, sizes, current, current_size) == all_blank(),
        norm_pix(spec_rasterize(f, strokes, sizes, current, current_size), j) == 0,
{
    lemma_raster_upto_off_right(all_blank(), f, strokes, sizes, strokes.len() as int);
    if current.len() > 0 {
        lemma_stroke_off_right(all_blank(), current, current_size as int, f);
    }
    lemma_blank_no_ink();
}

/// Helper for `lemma_sketch_off_frame_zero`: stroke by stroke.
proof fn lemma_raster_upto_off_right(
    buf: Seq<bool>,
    f: Frame,
    strokes: Seq<Seq<Pt>>,
    sizes: Seq<i64>,
    k: int,
)
    requires
        buf.len() == 78400,
        k <= strokes.len(),
        forall|s: int|
            0 <= s < strokes.len() ==> #[trigger] stroke_off_right(
                strokes[s],
                size_at(sizes, s),
                f,
            ),
    ensures
        raster_upto(buf, f, strokes, sizes, k) == buf,
    decreases k,
{
    if k > 0 {
        lemma_raster_upto_off_right(buf, f, strokes, sizes, k - 1);
        lemma_stroke_off_right(buf, strokes[k - 1], size_at(sizes, k - 1), f);
    }
}

} // verus!
