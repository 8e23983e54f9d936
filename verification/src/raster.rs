//! Stroke rasterization: maps stroke points from canvas space into the
//! 280x280 high-resolution buffer and stamps overlapping filled disks along
//! each segment, so that a pixel is marked once any stamp reaches its center.
//!
//! Coordinates are fixed-point with 16 sub-units per pixel (or canvas unit):
//! a buffer pixel `(x, y)` has its center at `(16 x + 8, 16 y + 8)` sub-units.
//! The buffer itself is binary: ink coverage is a union, never a sum.

use vstd::prelude::*;
use vstd::arithmetic::div_mod::{
    lemma_div_is_ordered, lemma_div_multiples_vanish, lemma_div_pos_is_pos,
    lemma_fundamental_div_mod,
};
use crate::fixed::{clamp_s, clamp64, cdiv, fdiv, isqrt_ceil, lemma_fdiv_bounds, sqrt_ceil};

verus! {

/// Buffer width and height in pixels.
pub const HI_W: usize = 280;

/// Number of pixels in the buffer.
pub const HI_N: usize = 78400;

/// Fixed-point sub-units per pixel or canvas unit.
pub const FP: i64 = 16;

/// Magnitude bound on mapped buffer coordinates (sub-units); coordinates
/// mapping further out are clamped, far outside the buffer either way.
pub const CMAX: i64 = 67108864;

/// Magnitude bound on canvas inputs (sub-units), a machine limit that keeps
/// every intermediate product inside `i64`.
pub const COORD_LIMIT: i64 = 1000000000;

/// A stroke point in canvas space, in fixed-point sub-units.
#[derive(Clone, Copy, PartialEq, Eq, Structural, Debug)]
pub struct Pt {
    pub x: i64,
    pub y: i64,
}

/// The rectangular canvas region strokes are expressed in, in fixed-point
/// sub-units: origin `(ox, oy)`, extent `w` by `h`.
#[derive(Clone, Copy, PartialEq, Eq, Structural, Debug)]
pub struct Frame {
    pub ox: i64,
    pub oy: i64,
    pub w: i64,
    pub h: i64,
}

/// A point the rasterizer accepts: both coordinates within the machine limit.
pub open spec fn pt_ok(p: Pt) -> bool {
    &&& -COORD_LIMIT <= p.x <= COORD_LIMIT
    &&& -COORD_LIMIT <= p.y <= COORD_LIMIT
}

/// A frame the rasterizer accepts: origin within the machine limit and a
/// positive extent.
pub open spec fn frame_ok(f: Frame) -> bool {
    &&& -COORD_LIMIT <= f.ox <= COORD_LIMIT
    &&& -COORD_LIMIT <= f.oy <= COORD_LIMIT
    &&& 1 <= f.w <= COORD_LIMIT
    &&& 1 <= f.h <= COORD_LIMIT
}

/// A brush radius the rasterizer accepts: positive, within the machine limit.
pub open spec fn radius_ok(r: i64) -> bool {
    1 <= r <= COORD_LIMIT
}

/// Map one canvas coordinate into buffer sub-units: the linear map sending
/// `[o, o + len]` onto `[0, 4480]`, floor-rounded, clamped to `[-CMAX, CMAX]`.
pub open spec fn map_coord(c: int, o: int, len: int) -> int {
    clamp_s((c - o) * 4480 / len, -(CMAX as int), CMAX as int)
}

/// Map a canvas-space brush radius into buffer sub-units.
pub open spec fn map_radius(r: int, w: int) -> int {
    clamp_s(r * 4480 / w, 0, CMAX as int)
}

/// Mapped x coordinate of a stroke point under a frame.
pub open spec fn mapped_x(p: Pt, f: Frame) -> int {
    map_coord(p.x as int, f.ox as int, f.w as int)
}

/// Mapped y coordinate of a stroke point under a frame.
pub open spec fn mapped_y(p: Pt, f: Frame) -> int {
    map_coord(p.y as int, f.oy as int, f.h as int)
}

/// Map a point from canvas space into buffer sub-units, one axis at a time.
pub fn to_hi(p: &Pt, frame: &Frame) -> (q: (i64, i64))
    requires
        pt_ok(*p),
        frame_ok(*frame),
    ensures
        q.0 as int == mapped_x(*p, *frame),
        q.1 as int == mapped_y(*p, *frame),
        -CMAX <= q.0 <= CMAX,
        -CMAX <= q.1 <= CMAX,
{
    let qx = clamp64(fdiv((p.x - frame.ox) * 4480, frame.w), -CMAX, CMAX);
    let qy = clamp64(fdiv((p.y - frame.oy) * 4480, frame.h), -CMAX, CMAX);
    (qx, qy)
}

/// The disk stamped at `(cx, cy)` with radius `r` (all in sub-units) reaches
/// the center of pixel `(x, y)`.
pub open spec fn covers(cx: int, cy: int, r: int, x: int, y: int) -> bool {
    let dx = 16 * x + 8 - cx;
    let dy = 16 * y + 8 - cy;
    dx * dx + dy * dy <= r * r
}

/// One disk stamp: every pixel whose center the disk reaches is set; no pixel
/// is ever cleared.
pub open spec fn stamp(buf: Seq<bool>, cx: int, cy: int, r: int) -> Seq<bool> {
    Seq::new(buf.len(), |i: int| buf[i] || covers(cx, cy, r, i % 280, i / 280))
}

/// A square is bounded by the square of a bound on the magnitude.
pub proof fn lemma_sq_bound(a: int, m: int)
    requires
        -m <= a <= m,
        0 <= m,
    ensures
        0 <= a * a <= m * m,
{
    assert(0 <= a * a <= m * m) by (nonlinear_arith)
        requires
            -m <= a <= m,
            0 <= m,
    ;
}

/// A covered pixel center lies within `r` of the stamp center on each axis,
/// hence inside the pixel box `[(c - r) / 16, (c + r + 15) / 16]`.
pub proof fn lemma_covers_box(cx: int, cy: int, r: int, x: int, y: int)
    requires
        0 <= r,
        covers(cx, cy, r, x, y),
    ensures
        cx - r <= 16 * x + 8 <= cx + r,
        cy - r <= 16 * y + 8 <= cy + r,
        (cx - r) / 16 <= x <= (cx + r + 15) / 16,
        (cy - r) / 16 <= y <= (cy + r + 15) / 16,
{
    let dx = 16 * x + 8 - cx;
    let dy = 16 * y + 8 - cy;
    assert(-r <= dx <= r && -r <= dy <= r) by (nonlinear_arith)
        requires
            0 <= r,
            dx * dx + dy * dy <= r * r,
    ;
    lemma_axis_box(cx, r, x);
    lemma_axis_box(cy, r, y);
}

/// Pixels already processed in the raster scan, given the scan position
/// `(ylim, xlim)`: rows before `ylim`, and columns before `xlim` in row
/// `ylim`. Pixels in that region are set when the disk reaches their center.
pub open spec fn stamp_part(buf: Seq<bool>, cx: int, cy: int, r: int, ylim: int, xlim: int) -> Seq<
    bool,
> {
    Seq::new(
        buf.len(),
        |i: int|
            buf[i] || (covers(cx, cy, r, i % 280, i / 280) && (i / 280 < ylim || (i / 280 == ylim
                && i % 280 < xlim))),
    )
}

/// Row-major index arithmetic on the 280x280 grid, from the flat index.
pub proof fn lemma_grid_index(i: int)
    requires
        0 <= i < 78400,
    ensures
        0 <= i % 280 < 280,
        0 <= i / 280 < 280,
        (i / 280) * 280 + i % 280 == i,
{
    lemma_fundamental_div_mod(i, 280);
    vstd::arithmetic::div_mod::lemma_mod_division_less_than_divisor(i, 280);
    lemma_div_pos_is_pos(i, 280);
    assert(i / 280 < 280) by (nonlinear_arith)
        requires
            0 <= i < 78400,
            i == 280 * (i / 280) + i % 280,
            0 <= i % 280 < 280,
    ;
    assert((i / 280) * 280 == 280 * (i / 280)) by (nonlinear_arith);
}

/// Row-major index arithmetic on the 280x280 grid, from the coordinates.
pub proof fn lemma_grid_index_inv(px: int, py: int)
    requires
        0 <= px < 280,
        0 <= py < 280,
    ensures
        0 <= py * 280 + px < 78400,
        (py * 280 + px) % 280 == px,
        (py * 280 + px) / 280 == py,
{
    vstd::arithmetic::div_mod::lemma_fundamental_div_mod_converse(py * 280 + px, 280, py, px);
}

/// Stamp one filled disk into the buffer: afterwards a pixel is set exactly
/// when it was set before or the disk reaches its center. Pixels outside the
/// buffer are silently skipped.
#[verifier::loop_isolation(false)]
pub fn splat_disk(buf: &mut Vec<bool>, cx: i64, cy: i64, r: i64)
    requires
        old(buf)@.len() == 78400,
        -CMAX <= cx <= CMAX,
        -CMAX <= cy <= CMAX,
        0 <= r <= CMAX,
    ensures
        final(buf)@ == stamp(old(buf)@, cx as int, cy as int, r as int),
{
    let ghost orig: Seq<bool> = buf@;
    let ghost cxi = cx as int;
    let ghost cyi = cy as int;
    let ghost ri = r as int;
    let y_lo = fdiv(cy - r, 16);
    let y_hi = cdiv(cy + r, 16);
    let x_lo = fdiv(cx - r, 16);
    let x_hi = cdiv(cx + r, 16);
    let y_end = if y_hi > 279 { 279 } else { y_hi };
    let x_end = if x_hi > 279 { 279 } else { x_hi };
    let mut y = if y_lo < 0 { 0 } else { y_lo };
    proof {
        assert forall|i: int| 0 <= i < 78400 implies stamp_part(orig, cxi, cyi, ri, y as int, 0)[i]
            == buf@[i] by {
            lemma_grid_index(i);
            if covers(cxi, cyi, ri, i % 280, i / 280) {
                lemma_covers_box(cxi, cyi, ri, i % 280, i / 280);
            }
        }
        assert(buf@ =~= stamp_part(orig, cxi, cyi, ri, y as int, 0));
    }
    while y <= y_end
        invariant
            0 <= y,
            orig.len() == 78400,
            buf@.len() == 78400,
            buf@ == stamp_part(orig, cxi, cyi, ri, y as int, 0),
        decreases y_end + 1 - y,
    {
        let mut x = if x_lo < 0 { 0 } else { x_lo };
        proof {
            assert forall|i: int| 0 <= i < 78400 implies stamp_part(
                orig,
                cxi,
                cyi,
                ri,
                y as int,
                x as int,
            )[i] == stamp_part(orig, cxi, cyi, ri, y as int, 0)[i] by {
                lemma_grid_index(i);
                if covers(cxi, cyi, ri, i % 280, i / 280) {
                    lemma_covers_box(cxi, cyi, ri, i % 280, i / 280);
                }
            }
            assert(stamp_part(orig, cxi, cyi, ri, y as int, x as int) =~= stamp_part(
                orig,
                cxi,
                cyi,
                ri,
                y as int,
                0,
            ));
        }
        while x <= x_end
            invariant
                0 <= x,
                0 <= y <= y_end <= 279,
                orig.len() == 78400,
                buf@.len() == 78400,
                buf@ == stamp_part(orig, cxi, cyi, ri, y as int, x as int),
            decreases x_end + 1 - x,
        {
            let dx = 16 * x + 8 - cx;
            let dy = 16 * y + 8 - cy;
            proof {
                lemma_sq_bound(dx as int, CMAX as int + 4488);
                lemma_sq_bound(dy as int, CMAX as int + 4488);
                lemma_sq_bound(ri, CMAX as int);
            }
            let ghost pre = buf@;
            if dx * dx + dy * dy <= r * r {
                let idx: usize = (y as usize) * 280 + (x as usize);
                proof {
                    lemma_grid_index_inv(x as int, y as int);
                }
                buf[idx] = true;
                proof {
                    assert(covers(cxi, cyi, ri, x as int, y as int));
                    assert forall|i: int| 0 <= i < 78400 implies buf@[i] == stamp_part(
                        orig,
                        cxi,
                        cyi,
                        ri,
                        y as int,
                        x as int + 1,
                    )[i] by {
                        lemma_grid_index(i);
                        if i == idx as int {
                            assert(i % 280 == x as int && i / 280 == y as int);
                        } else {
                            if i / 280 == y as int && i % 280 == x as int {
                                assert(i == (i / 280) * 280 + i % 280);
                                assert(false);
                            }
                        }
                    }
                    assert(buf@ =~= stamp_part(orig, cxi, cyi, ri, y as int, x as int + 1));
                }
            } else {
                proof {
                    assert(!covers(cxi, cyi, ri, x as int, y as int));
                    assert forall|i: int| 0 <= i < 78400 implies buf@[i] == stamp_part(
                        orig,
                        cxi,
                        cyi,
                        ri,
                        y as int,
                        x as int + 1,
                    )[i] by {
                        lemma_grid_index(i);
                        if i / 280 == y as int && i % 280 == x as int {
                            assert(i == (i / 280) * 280 + i % 280);
                            lemma_grid_index_inv(x as int, y as int);
                        }
                    }
                    assert(buf@ =~= stamp_part(orig, cxi, cyi, ri, y as int, x as int + 1));
                }
            }
            x = x + 1;
        }
        proof {
            assert forall|i: int| 0 <= i < 78400 implies stamp_part(
                orig,
                cxi,
                cyi,
                ri,
                y as int,
                x as int,
            )[i] == stamp_part(orig, cxi, cyi, ri, y as int + 1, 0)[i] by {
                lemma_grid_index(i);
                if covers(cxi, cyi, ri, i % 280, i / 280) {
                    lemma_covers_box(cxi, cyi, ri, i % 280, i / 280);
                }
            }
            assert(stamp_part(orig, cxi, cyi, ri, y as int, x as int) =~= stamp_part(
                orig,
                cxi,
                cyi,
                ri,
                y as int + 1,
                0,
            ));
        }
        y = y + 1;
    }
    proof {
        assert forall|i: int| 0 <= i < 78400 implies stamp_part(orig, cxi, cyi, ri, y as int, 0)[i]
            == stamp(orig, cxi, cyi, ri)[i] by {
            lemma_grid_index(i);
            if covers(cxi, cyi, ri, i % 280, i / 280) {
                lemma_covers_box(cxi, cyi, ri, i % 280, i / 280);
            }
        }
        assert(stamp_part(orig, cxi, cyi, ri, y as int, 0) =~= stamp(orig, cxi, cyi, ri));
    }
}

/// Position of sample `i` of `steps + 1` uniform samples along one axis of a
/// segment from `a` to `b`, floor-rounded; a degenerate segment stays at `a`.
pub open spec fn sample_coord(a: int, b: int, i: int, steps: int) -> int {
    if steps <= 0 {
        a
    } else {
        a + (b - a) * i / steps
    }
}

/// Number of uniform steps along a segment: the distance (ceiling of the
/// euclidean length), divided by the step size `max(r / 2, 16)` sub-units
/// (half the brush radius, at least one pixel), rounded up.
pub open spec fn seg_steps(ax: int, ay: int, bx: int, by: int, r: int) -> int {
    let d2 = (bx - ax) * (bx - ax) + (by - ay) * (by - ay);
    let dist = sqrt_ceil(d2);
    let stp = if r / 2 > 16 {
        r / 2
    } else {
        16
    };
    (dist + stp - 1) / stp
}

/// Stamp the first `n` of the `steps + 1` samples of a segment.
pub open spec fn stamp_samples(
    buf: Seq<bool>,
    ax: int,
    ay: int,
    bx: int,
    by: int,
    r: int,
    steps: int,
    n: int,
) -> Seq<bool>
    decreases n,
{
    if n <= 0 {
        buf
    } else {
        stamp(
            stamp_samples(buf, ax, ay, bx, by, r, steps, n - 1),
            sample_coord(ax, bx, n - 1, steps),
            sample_coord(ay, by, n - 1, steps),
            r,
        )
    }
}

/// Stamp a whole segment: all `seg_steps + 1` samples, endpoints included.
pub open spec fn draw_seg(buf: Seq<bool>, ax: int, ay: int, bx: int, by: int, r: int) -> Seq<
    bool,
> {
    stamp_samples(
        buf,
        ax,
        ay,
        bx,
        by,
        r,
        seg_steps(ax, ay, bx, by, r),
        seg_steps(ax, ay, bx, by, r) + 1,
    )
}

/// Stamp the first `k` segments of a polyline of mapped stroke points.
pub open spec fn draw_polyline_upto(buf: Seq<bool>, pts: Seq<Pt>, r: int, f: Frame, k: int) -> Seq<
    bool,
>
    decreases k,
{
    if k <= 0 {
        buf
    } else {
        draw_seg(
            draw_polyline_upto(buf, pts, r, f, k - 1),
            mapped_x(pts[k - 1], f),
            mapped_y(pts[k - 1], f),
            mapped_x(pts[k], f),
            mapped_y(pts[k], f),
            map_radius(r, f.w as int),
        )
    }
}

/// Draw one stroke: each consecutive pair of points becomes a stamped
/// segment. A stroke with fewer than two points leaves no mark.
pub open spec fn draw_stroke(buf: Seq<bool>, pts: Seq<Pt>, r: int, f: Frame) -> Seq<bool> {
    if pts.len() < 2 {
        buf
    } else {
        draw_polyline_upto(buf, pts, r, f, pts.len() - 1)
    }
}

/// A product of two bounded factors is bounded by the product of the bounds.
pub proof fn lemma_mul_abs_bound(a: int, b: int, ma: int, mb: int)
    requires
        -ma <= a <= ma,
        0 <= b <= mb,
        0 <= ma,
    ensures
        -(ma * mb) <= a * b <= ma * mb,
{
    assert(-(ma * mb) <= a * b <= ma * mb) by (nonlinear_arith)
        requires
            -ma <= a <= ma,
            0 <= b <= mb,
            0 <= ma,
    ;
}

/// Stamping samples never changes the buffer's length.
pub proof fn lemma_stamp_samples_len(
    buf: Seq<bool>,
    ax: int,
    ay: int,
    bx: int,
    by: int,
    r: int,
    steps: int,
    n: int,
)
    ensures
        stamp_samples(buf, ax, ay, bx, by, r, steps, n).len() == buf.len(),
    decreases n,
{
    if n > 0 {
        lemma_stamp_samples_len(buf, ax, ay, bx, by, r, steps, n - 1);
    }
}

/// Drawing a polyline never changes the buffer's length.
pub proof fn lemma_draw_polyline_len(buf: Seq<bool>, pts: Seq<Pt>, r: int, f: Frame, k: int)
    ensures
        draw_polyline_upto(buf, pts, r, f, k).len() == buf.len(),
    decreases k,
{
    if k > 0 {
        lemma_draw_polyline_len(buf, pts, r, f, k - 1);
        let b = draw_polyline_upto(buf, pts, r, f, k - 1);
        lemma_stamp_samples_len(
            b,
            mapped_x(pts[k - 1], f),
            mapped_y(pts[k - 1], f),
            mapped_x(pts[k], f),
            mapped_y(pts[k], f),
            map_radius(r, f.w as int),
            seg_steps(
                mapped_x(pts[k - 1], f),
                mapped_y(pts[k - 1], f),
                mapped_x(pts[k], f),
                mapped_y(pts[k], f),
                map_radius(r, f.w as int),
            ),
            seg_steps(
                mapped_x(pts[k - 1], f),
                mapped_y(pts[k - 1], f),
                mapped_x(pts[k], f),
                mapped_y(pts[k], f),
                map_radius(r, f.w as int),
            ) + 1,
        );
    }
}

/// Drawing a stroke never changes the buffer's length.
pub proof fn lemma_draw_stroke_len(buf: Seq<bool>, pts: Seq<Pt>, r: int, f: Frame)
    ensures
        draw_stroke(buf, pts, r, f).len() == buf.len(),
{
    if pts.len() >= 2 {
        lemma_draw_polyline_len(buf, pts, r, f, pts.len() - 1);
    }
}

/// Rasterizing strokes never changes the buffer's length.
pub proof fn lemma_raster_upto_len(
    buf: Seq<bool>,
    f: Frame,
    strokes: Seq<Seq<Pt>>,
    sizes: Seq<i64>,
    k: int,
)
    ensures
        raster_upto(buf, f, strokes, sizes, k).len() == buf.len(),
    decreases k,
{
    if k > 0 {
        lemma_raster_upto_len(buf, f, strokes, sizes, k - 1);
        lemma_draw_stroke_len(
            raster_upto(buf, f, strokes, sizes, k - 1),
            strokes[k - 1],
            size_at(sizes, k - 1),
            f,
        );
    }
}

/// The ceiling of `dist / stp` is at most `dist` for a positive step.
pub proof fn lemma_ceil_div_le(dist: int, stp: int)
    requires
        0 <= dist,
        1 <= stp,
    ensures
        0 <= (dist + stp - 1) / stp <= dist,
{
    let q = (dist + stp - 1) / stp;
    lemma_fundamental_div_mod(dist + stp - 1, stp);
    lemma_div_pos_is_pos(dist + stp - 1, stp);
    assert(q <= dist) by (nonlinear_arith)
        requires
            dist + stp - 1 == stp * q + (dist + stp - 1) % stp,
            0 <= (dist + stp - 1) % stp < stp,
            1 <= stp,
            0 <= dist,
            0 <= q,
    ;
}

/// Every sample position lies between the segment's endpoints.
pub proof fn lemma_sample_range(a: int, b: int, i: int, steps: int)
    requires
        0 <= i <= steps,
    ensures
        a <= b ==> a <= sample_coord(a, b, i, steps) <= b,
        b <= a ==> b <= sample_coord(a, b, i, steps) <= a,
{
    if steps > 0 {
        let d = b - a;
        if d >= 0 {
            assert(0 <= d * i && d * i <= d * steps) by (nonlinear_arith)
                requires
                    0 <= d,
                    0 <= i <= steps,
            ;
            lemma_div_pos_is_pos(d * i, steps);
            lemma_div_is_ordered(d * i, d * steps, steps);
            lemma_div_multiples_vanish(d, steps);
            assert(d * steps == steps * d) by (nonlinear_arith);
        } else {
            assert(d * steps <= d * i && d * i <= 0) by (nonlinear_arith)
                requires
                    d < 0,
                    0 <= i <= steps,
            ;
            lemma_fdiv_bounds(d * i, steps);
            lemma_div_is_ordered(d * steps, d * i, steps);
            lemma_div_multiples_vanish(d, steps);
            assert(d * steps == steps * d) by (nonlinear_arith);
        }
    }
}

/// Draw one stroke into the buffer, walking each consecutive pair of points
/// in uniform steps and stamping a disk of the mapped brush radius at every
/// sample. A stroke with fewer than two points leaves no mark.
#[verifier::loop_isolation(false)]
pub fn draw_one(points: &Vec<Pt>, radius_canvas: i64, frame: &Frame, buf: &mut Vec<bool>)
    requires
        old(buf)@.len() == 78400,
        frame_ok(*frame),
        radius_ok(radius_canvas),
        forall|k: int| 0 <= k < points@.len() ==> pt_ok(points@[k]),
    ensures
        final(buf)@ == draw_stroke(old(buf)@, points@, radius_canvas as int, *frame),
{
    if points.len() < 2 {
        return ;
    }
    let ghost orig: Seq<bool> = buf@;
    let r_hi = clamp64(fdiv(radius_canvas * 4480, frame.w), 0, CMAX);
    let n = points.len();
    let mut j: usize = 1;
    while j < n
        invariant
            1 <= j <= n,
            buf@.len() == 78400,
            buf@ == draw_polyline_upto(orig, points@, radius_canvas as int, *frame, j - 1),
        decreases n - j,
    {
        let a = to_hi(&points[j - 1], frame);
        let b = to_hi(&points[j], frame);
        let dx = b.0 - a.0;
        let dy = b.1 - a.1;
        proof {
            lemma_sq_bound(dx as int, 2 * CMAX as int);
            lemma_sq_bound(dy as int, 2 * CMAX as int);
        }
        let d2 = dx * dx + dy * dy;
        let dist = isqrt_ceil(d2);
        let half_r = fdiv(r_hi, 2);
        let stp = if half_r > 16 {
            half_r
        } else {
            16
        };
        let steps = cdiv(dist, stp);
        proof {
            lemma_ceil_div_le(dist as int, stp as int);
            assert(steps as int == seg_steps(
                a.0 as int,
                a.1 as int,
                b.0 as int,
                b.1 as int,
                r_hi as int,
            ));
        }
        let ghost seg0: Seq<bool> = buf@;
        let mut i: i64 = 0;
        while i <= steps
            invariant
                0 <= i <= steps + 1,
                buf@.len() == 78400,
                seg0.len() == 78400,
                buf@ == stamp_samples(
                    seg0,
                    a.0 as int,
                    a.1 as int,
                    b.0 as int,
                    b.1 as int,
                    r_hi as int,
                    steps as int,
                    i as int,
                ),
            decreases steps + 1 - i,
        {
            proof {
                lemma_sample_range(a.0 as int, b.0 as int, i as int, steps as int);
                lemma_sample_range(a.1 as int, b.1 as int, i as int, steps as int);
                lemma_mul_abs_bound(dx as int, i as int, 2 * CMAX as int, 0x1000_0000);
                lemma_mul_abs_bound(dy as int, i as int, 2 * CMAX as int, 0x1000_0000);
            }
            let cx = if steps == 0 {
                a.0
            } else {
                a.0 + fdiv(dx * i, steps)
            };
            let cy = if steps == 0 {
                a.1
            } else {
                a.1 + fdiv(dy * i, steps)
            };
            proof {
                assert(cx as int == sample_coord(a.0 as int, b.0 as int, i as int, steps as int));
                assert(cy as int == sample_coord(a.1 as int, b.1 as int, i as int, steps as int));
            }
            splat_disk(buf, cx, cy, r_hi);
            i = i + 1;
        }
        proof {
            assert(buf@ == draw_polyline_upto(orig, points@, radius_canvas as int, *frame, j as int));
        }
        j = j + 1;
    }
}

/// The all-blank high-resolution buffer.
pub open spec fn all_blank() -> Seq<bool> {
    Seq::new(78400, |i: int| false)
}

/// Brush radius of stroke `i`: its entry in `sizes`, or 128 sub-units (eight
/// canvas units) where none was recorded.
pub open spec fn size_at(sizes: Seq<i64>, i: int) -> int {
    if 0 <= i < sizes.len() {
        sizes[i] as int
    } else {
        128
    }
}

/// Draw the first `k` committed strokes into the buffer.
pub open spec fn raster_upto(
    buf: Seq<bool>,
    f: Frame,
    strokes: Seq<Seq<Pt>>,
    sizes: Seq<i64>,
    k: int,
) -> Seq<bool>
    decreases k,
{
    if k <= 0 {
        buf
    } else {
        draw_stroke(
            raster_upto(buf, f, strokes, sizes, k - 1),
            strokes[k - 1],
            size_at(sizes, k - 1),
            f,
        )
    }
}

/// The whole rasterizer: a blank buffer, every committed stroke in order,
/// then the in-progress stroke if it has any points.
pub open spec fn spec_rasterize(
    f: Frame,
    strokes: Seq<Seq<Pt>>,
    sizes: Seq<i64>,
    current: Seq<Pt>,
    current_size: i64,
) -> Seq<bool> {
    let b = raster_upto(all_blank(), f, strokes, sizes, strokes.len() as int);
    if current.len() == 0 {
        b
    } else {
        draw_stroke(b, current, current_size as int, f)
    }
}

/// Rasterize all strokes into a fresh 280x280 binary coverage buffer: the
/// committed strokes each with their recorded brush radius, then the stroke
/// being drawn, if any.
#[verifier::loop_isolation(false)]
pub fn rasterize_strokes_to_hi(
    frame: &Frame,
    strokes: &Vec<Vec<Pt>>,
    sizes: &Vec<i64>,
    current: &Vec<Pt>,
    current_size: i64,
) -> (buf: Vec<bool>)
    requires
        frame_ok(*frame),
        forall|s: int, k: int|
            0 <= s < strokes@.len() && 0 <= k < strokes@[s]@.len() ==> pt_ok(strokes@[s]@[k]),
        forall|s: int| 0 <= s < sizes@.len() ==> radius_ok(sizes@[s]),
        radius_ok(current_size),
        forall|k: int| 0 <= k < current@.len() ==> pt_ok(current@[k]),
    ensures
        buf@.len() == 78400,
        buf@ == spec_rasterize(
            *frame,
            strokes@.map_values(|s: Vec<Pt>| s@),
            sizes@,
            current@,
            current_size,
        ),
{
    let mut buf: Vec<bool> = Vec::new();
    let mut i: usize = 0;
    while i < 78400
        invariant
            buf@.len() == i,
            i <= 78400,
            forall|k: int| 0 <= k < i ==> !buf@[k],
        decreases 78400 - i,
    {
        buf.push(false);
        i = i + 1;
    }
    proof {
        assert(buf@ =~= all_blank());
    }
    let ghost mstrokes: Seq<Seq<Pt>> = strokes@.map_values(|s2: Vec<Pt>| s2@);
    let mut s: usize = 0;
    while s < strokes.len()
        invariant
            s <= strokes@.len(),
            buf@.len() == 78400,
            buf@ == raster_upto(all_blank(), *frame, mstrokes, sizes@, s as int),
        decreases strokes@.len() - s,
    {
        let radius = if s < sizes.len() {
            sizes[s]
        } else {
            128
        };
        proof {
            assert(radius as int == size_at(sizes@, s as int));
            assert(mstrokes[s as int] == strokes@[s as int]@);
        }
        let ghost prev: Seq<bool> = buf@;
        draw_one(&strokes[s], radius, frame, &mut buf);
        proof {
            lemma_draw_stroke_len(prev, strokes@[s as int]@, radius as int, *frame);
            assert(buf@ == raster_upto(all_blank(), *frame, mstrokes, sizes@, s as int + 1));
        }
        s = s + 1;
    }
    if current.len() > 0 {
        let ghost prev: Seq<bool> = buf@;
        draw_one(current, current_size, frame, &mut buf);
        proof {
            lemma_draw_stroke_len(prev, current@, current_size as int, *frame);
        }
    }
    buf
}

/// One axis of `lemma_covers_box`.
proof fn lemma_axis_box(c: int, r: int, x: int)
    requires
        c - r <= 16 * x + 8 <= c + r,
    ensures
        (c - r) / 16 <= x <= (c + r + 15) / 16,
{
    vstd::arithmetic::div_mod::lemma_fundamental_div_mod_converse(16 * x + 8, 16, x, 8);
    lemma_div_is_ordered(c - r, 16 * x + 8, 16);
    lemma_div_is_ordered(16 * x + 8, c + r, 16);
    lemma_div_is_ordered(c + r, c + r + 15, 16);
}

} // verus!
