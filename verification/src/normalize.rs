//! Normalizer: crop the buffer around the ink with a 20% margin, resize the
//! crop to 20x20 by corner-aligned bilinear interpolation, and paste it at
//! offset (4, 4) into a zero 28x28 image.
//!
//! Output intensities are exact numerators over the fixed denominator 36100:
//! the bilinear weights have denominator 19 per axis (361 for both), and the
//! extra factor 100 also accommodates the 10x10 block average. An intensity
//! `v` stands for the real value `v / 36100`, always within `[0, 1]`.

use vstd::prelude::*;
use vstd::arithmetic::div_mod::{
    lemma_div_is_ordered, lemma_div_multiples_vanish, lemma_div_pos_is_pos,
    lemma_fundamental_div_mod_converse, lemma_mod_division_less_than_divisor,
};
use vstd::arithmetic::mul::lemma_mul_inequality;
use crate::fixed::{clamp_s, clamp64};
use crate::inkbox::{bbox_of_hi, has_ink, ink_at, max_col, max_row, min_col, min_row};

verus! {

/// Full fixed-point intensity scale: an output value `v` means `v / 36100`.
pub const SCALE: u32 = 36100;

/// Ink as a 0/1 intensity.
pub open spec fn ink_val(hi: Seq<bool>, x: int, y: int) -> int {
    if ink_at(hi, x, y) {
        1
    } else {
        0
    }
}

/// Side of the square around the ink: the larger bounding-box extent.
pub open spec fn bb_side(hi: Seq<bool>) -> int {
    let bw = max_col(hi) - min_col(hi) + 1;
    let bh = max_row(hi) - min_row(hi) + 1;
    if bw >= bh {
        bw
    } else {
        bh
    }
}

/// 20% margin around the ink extent, rounded up.
pub open spec fn pad_of(hi: Seq<bool>) -> int {
    (bb_side(hi) + 4) / 5
}

/// Half-extent of the crop window.
pub open spec fn half_of(hi: Seq<bool>) -> int {
    bb_side(hi) / 2 + pad_of(hi)
}

/// Horizontal center of the ink bounding box.
pub open spec fn ctr_x(hi: Seq<bool>) -> int {
    (min_col(hi) + max_col(hi)) / 2
}

/// Vertical center of the ink bounding box.
pub open spec fn ctr_y(hi: Seq<bool>) -> int {
    (min_row(hi) + max_row(hi)) / 2
}

/// Left edge of the crop window, clamped to the buffer.
pub open spec fn crop_x0(hi: Seq<bool>) -> int {
    clamp_s(ctr_x(hi) - half_of(hi), 0, 279)
}

/// Right edge of the crop window, clamped to the buffer.
pub open spec fn crop_x1(hi: Seq<bool>) -> int {
    clamp_s(ctr_x(hi) + half_of(hi), 0, 279)
}

/// Top edge of the crop window, clamped to the buffer.
pub open spec fn crop_y0(hi: Seq<bool>) -> int {
    clamp_s(ctr_y(hi) - half_of(hi), 0, 279)
}

/// Bottom edge of the crop window, clamped to the buffer.
pub open spec fn crop_y1(hi: Seq<bool>) -> int {
    clamp_s(ctr_y(hi) + half_of(hi), 0, 279)
}

/// Width of the crop window; clamping near an edge may make it non-square.
pub open spec fn crop_w(hi: Seq<bool>) -> int {
    crop_x1(hi) - crop_x0(hi) + 1
}

/// Height of the crop window.
pub open spec fn crop_h(hi: Seq<bool>) -> int {
    crop_y1(hi) - crop_y0(hi) + 1
}

/// The crop sub-grid as a row-major sequence of `cw * ch` pixels.
pub open spec fn crop_seq(hi: Seq<bool>, x0: int, y0: int, cw: int, ch: int) -> Seq<bool> {
    Seq::new((cw * ch) as nat, |i: int| hi[(y0 + i / cw) * 280 + (x0 + i % cw)])
}

/// Corner-aligned source index below destination index `d` on an axis of
/// extent `cs`: the floor of `d * (cs - 1) / 19`. An extent of one keeps
/// every read on its single row or column.
pub open spec fn src0(d: int, cs: int) -> int {
    d * (cs - 1) / 19
}

/// The next source index, clamped to the axis.
pub open spec fn src1(d: int, cs: int) -> int {
    if src0(d, cs) + 1 <= cs - 1 {
        src0(d, cs) + 1
    } else {
        cs - 1
    }
}

/// Interpolation weight numerator (denominator 19) on an axis.
pub open spec fn tfrac(d: int, cs: int) -> int {
    d * (cs - 1) % 19
}

/// A source pixel as a 0/1 intensity, on a grid of width `sw`.
pub open spec fn grid_val(src: Seq<bool>, sw: int, x: int, y: int) -> int {
    if src[y * sw + x] {
        1
    } else {
        0
    }
}

/// Bilinear sample of destination pixel `(dx, dy)` over a binary source
/// grid: the weighted blend of the four nearest source pixels, scaled by 361.
pub open spec fn bil_at(src: Seq<bool>, sw: int, sh: int, dx: int, dy: int) -> int {
    let xs0 = src0(dx, sw);
    let xs1 = src1(dx, sw);
    let tx = tfrac(dx, sw);
    let ys0 = src0(dy, sh);
    let ys1 = src1(dy, sh);
    let ty = tfrac(dy, sh);
    let a = grid_val(src, sw, xs0, ys0);
    let b = grid_val(src, sw, xs1, ys0);
    let c = grid_val(src, sw, xs0, ys1);
    let d = grid_val(src, sw, xs1, ys1);
    (19 - ty) * ((19 - tx) * a + tx * b) + ty * ((19 - tx) * c + tx * d)
}

/// One pixel of the normalized 28x28 image, scaled by 36100: zero outside
/// the centered 20x20 region or when the buffer is blank, else the bilinear
/// sample of the crop.
pub open spec fn norm_pix(hi: Seq<bool>, j: int) -> int {
    if !has_ink(hi) {
        0
    } else {
        let x = j % 28;
        let y = j / 28;
        if 4 <= x < 24 && 4 <= y < 24 {
            100 * bil_at(
                crop_seq(hi, crop_x0(hi), crop_y0(hi), crop_w(hi), crop_h(hi)),
                crop_w(hi),
                crop_h(hi),
                x - 4,
                y - 4,
            )
        } else {
            0
        }
    }
}

/// Source indices and weights stay on the source grid.
pub proof fn lemma_src_bounds(d: int, cs: int)
    requires
        0 <= d <= 19,
        1 <= cs,
    ensures
        0 <= src0(d, cs) <= cs - 1,
        src0(d, cs) <= src1(d, cs) <= cs - 1,
        0 <= tfrac(d, cs) <= 18,
{
    assert(0 <= d * (cs - 1)) by (nonlinear_arith)
        requires
            0 <= d,
            1 <= cs,
    ;
    lemma_div_pos_is_pos(d * (cs - 1), 19);
    lemma_mul_inequality(d, 19, cs - 1);
    lemma_div_is_ordered(d * (cs - 1), 19 * (cs - 1), 19);
    lemma_div_multiples_vanish(cs - 1, 19);
    lemma_mod_division_less_than_divisor(d * (cs - 1), 19);
}

/// A bilinear sample lies within the scale: between 0 and 361.
pub proof fn lemma_bil_bounds(src: Seq<bool>, sw: int, sh: int, dx: int, dy: int)
    requires
        0 <= dx <= 19,
        0 <= dy <= 19,
        1 <= sw,
        1 <= sh,
    ensures
        0 <= bil_at(src, sw, sh, dx, dy) <= 361,
{
    lemma_src_bounds(dx, sw);
    lemma_src_bounds(dy, sh);
    let tx = tfrac(dx, sw);
    let ty = tfrac(dy, sh);
    let a = grid_val(src, sw, src0(dx, sw), src0(dy, sh));
    let b = grid_val(src, sw, src1(dx, sw), src0(dy, sh));
    let c = grid_val(src, sw, src0(dx, sw), src1(dy, sh));
    let d = grid_val(src, sw, src1(dx, sw), src1(dy, sh));
    assert(0 <= (19 - tx) * a + tx * b <= 19) by (nonlinear_arith)
        requires
            0 <= tx <= 18,
            0 <= a <= 1,
            0 <= b <= 1,
    ;
    assert(0 <= (19 - tx) * c + tx * d <= 19) by (nonlinear_arith)
        requires
            0 <= tx <= 18,
            0 <= c <= 1,
            0 <= d <= 1,
    ;
    assert(0 <= (19 - ty) * ((19 - tx) * a + tx * b) + ty * ((19 - tx) * c + tx * d) <= 361)
        by (nonlinear_arith)
        requires
            0 <= ty <= 18,
            0 <= (19 - tx) * a + tx * b <= 19,
            0 <= (19 - tx) * c + tx * d <= 19,
    ;
}

/// Resize a binary source grid to 20x20 by corner-aligned bilinear
/// interpolation; each output value is the bilinear sample scaled by 361. A
/// source extent of one propagates its single row or column unchanged.
#[verifier::loop_isolation(false)]
pub fn resize_bilinear(src: &Vec<bool>, sw: usize, sh: usize) -> (out: Vec<u32>)
    requires
        1 <= sw <= 280,
        1 <= sh <= 280,
        src@.len() == sw * sh,
    ensures
        out@.len() == 400,
        forall|j: int|
            0 <= j < 400 ==> out@[j] as int == bil_at(src@, sw as int, sh as int, j % 20, j / 20),
        forall|j: int| 0 <= j < 400 ==> 0 <= #[trigger] out@[j] <= 361,
{
    let mut out: Vec<u32> = Vec::new();
    let mut dy: usize = 0;
    while dy < 20
        invariant
            0 <= dy <= 20,
            out@.len() == dy * 20,
            forall|j: int|
                0 <= j < out@.len() ==> out@[j] as int == bil_at(
                    src@,
                    sw as int,
                    sh as int,
                    j % 20,
                    j / 20,
                ) && 0 <= out@[j] <= 361,
        decreases 20 - dy,
    {
        proof {
            assert(dy as int * (sh as int - 1) <= 5301) by (nonlinear_arith)
                requires
                    0 <= dy < 20,
                    1 <= sh <= 280,
            ;
        }
        let fy = dy * (sh - 1);
        let ys0 = fy / 19;
        let ty = (fy % 19) as u32;
        proof {
            lemma_src_bounds(dy as int, sh as int);
        }
        let ys1 = if ys0 + 1 <= sh - 1 {
            ys0 + 1
        } else {
            sh - 1
        };
        let mut dx: usize = 0;
        while dx < 20
            invariant
                0 <= dx <= 20,
                dy < 20,
                out@.len() == dy * 20 + dx,
                forall|j: int|
                    0 <= j < out@.len() ==> out@[j] as int == bil_at(
                        src@,
                        sw as int,
                        sh as int,
                        j % 20,
                        j / 20,
                    ) && 0 <= out@[j] <= 361,
            decreases 20 - dx,
        {
            proof {
                assert(dx as int * (sw as int - 1) <= 5301) by (nonlinear_arith)
                    requires
                        0 <= dx < 20,
                        1 <= sw <= 280,
                ;
            }
            let fx = dx * (sw - 1);
            let xs0 = fx / 19;
            let tx = (fx % 19) as u32;
            proof {
                lemma_src_bounds(dx as int, sw as int);
            }
            let xs1 = if xs0 + 1 <= sw - 1 {
                xs0 + 1
            } else {
                sw - 1
            };
            proof {
                assert(ys0 * sw + xs0 < sw * sh && ys0 * sw + xs1 < sw * sh && ys1 * sw + xs0 < sw
                    * sh && ys1 * sw + xs1 < sw * sh && sw * sh <= 78400 && ys0 * sw <= 78120
                    && ys1 * sw <= 78120) by (nonlinear_arith)
                    requires
                        0 <= ys0 <= sh - 1,
                        0 <= ys1 <= sh - 1,
                        0 <= xs0 <= sw - 1,
                        0 <= xs1 <= sw - 1,
                        1 <= sw <= 280,
                        1 <= sh <= 280,
                ;
            }
            let a: u32 = if src[ys0 * sw + xs0] {
                1
            } else {
                0
            };
            let b: u32 = if src[ys0 * sw + xs1] {
                1
            } else {
                0
            };
            let c: u32 = if src[ys1 * sw + xs0] {
                1
            } else {
                0
            };
            let d: u32 = if src[ys1 * sw + xs1] {
                1
            } else {
                0
            };
            proof {
                assert((19 - tx) * a + tx * b <= 19 && (19 - tx) * c + tx * d <= 19)
                    by (nonlinear_arith)
                    requires
                        0 <= tx <= 18,
                        0 <= a <= 1,
                        0 <= b <= 1,
                        0 <= c <= 1,
                        0 <= d <= 1,
                ;
            }
            let ab: u32 = (19 - tx) * a + tx * b;
            let cd: u32 = (19 - tx) * c + tx * d;
            proof {
                assert((19 - ty) * ab + ty * cd <= 361) by (nonlinear_arith)
                    requires
                        0 <= ty <= 18,
                        0 <= ab <= 19,
                        0 <= cd <= 19,
                ;
            }
            let v: u32 = (19 - ty) * ab + ty * cd;
            proof {
                assert(v as int == bil_at(src@, sw as int, sh as int, dx as int, dy as int));
                lemma_fundamental_div_mod_converse(
                    dy as int * 20 + dx as int,
                    20,
                    dy as int,
                    dx as int,
                );
            }
            out.push(v);
            dx = dx + 1;
        }
        dy = dy + 1;
    }
    out
}

/// Crop the buffer around the ink with a 20% margin, resize the crop to
/// 20x20 bilinearly, and paste it at offset (4, 4) into a zero 28x28 image;
/// a blank buffer yields the all-zero image. Every output intensity is an
/// exact numerator over 36100 and lies in `[0, 36100]`.
#[verifier::loop_isolation(false)]
#[verifier::rlimit(80)]
pub fn hi_to_mnist28(hi: &Vec<bool>) -> (out: Vec<u32>)
    requires
        hi@.len() == 78400,
    ensures
        out@.len() == 784,
        forall|j: int| 0 <= j < 784 ==> 0 <= #[trigger] out@[j] <= 36100,
        forall|j: int| 0 <= j < 784 ==> out@[j] as int == norm_pix(hi@, j),
{
    let bb = bbox_of_hi(hi);
    match bb {
        None => {
            let mut out: Vec<u32> = Vec::new();
            let mut i: usize = 0;
            while i < 784
                invariant
                    out@.len() == i,
                    i <= 784,
                    forall|j: int| 0 <= j < i ==> out@[j] == 0,
                decreases 784 - i,
            {
                out.push(0);
                i = i + 1;
            }
            out
        },
        Some(b) => {
            let bw = b.max_x - b.min_x + 1;
            let bh = b.max_y - b.min_y + 1;
            let side = if bw >= bh {
                bw
            } else {
                bh
            };
            let pad = (side + 4) / 5;
            let half: i64 = (side / 2 + pad) as i64;
            let cx: i64 = ((b.min_x + b.max_x) / 2) as i64;
            let cy: i64 = ((b.min_y + b.max_y) / 2) as i64;
            let x0s = clamp64(cx - half, 0, 279);
            let x1s = clamp64(cx + half, 0, 279);
            let y0s = clamp64(cy - half, 0, 279);
            let y1s = clamp64(cy + half, 0, 279);
            proof {
                assert(x0s as int == crop_x0(hi@));
                assert(x1s as int == crop_x1(hi@));
                assert(y0s as int == crop_y0(hi@));
                assert(y1s as int == crop_y1(hi@));
                assert(x0s <= x1s && y0s <= y1s);
            }
            let x0 = x0s as usize;
            let y0 = y0s as usize;
            let cw = (x1s - x0s + 1) as usize;
            let ch = (y1s - y0s + 1) as usize;
            let mut crop: Vec<bool> = Vec::new();
            let mut yy: usize = 0;
            while yy < ch
                invariant
                    0 <= yy <= ch,
                    1 <= cw <= 280,
                    1 <= ch <= 280,
                    x0 + cw <= 280,
                    y0 + ch <= 280,
                    crop@.len() == yy * cw,
                    forall|i: int|
                        0 <= i < crop@.len() ==> crop@[i] == hi@[(y0 + i / (cw as int)) * 280 + (x0 + i % (cw as int))],
                decreases ch - yy,
            {
                let mut xx: usize = 0;
                while xx < cw
                    invariant
                        0 <= xx <= cw,
                        yy < ch,
                        crop@.len() == yy * cw + xx,
                        forall|i: int|
                            0 <= i < crop@.len() ==> crop@[i] == hi@[(y0 + i / (cw as int)) * 280 + (x0 + i % (cw as int))],
                    decreases cw - xx,
                {
                    proof {
                        lemma_fundamental_div_mod_converse(
                            yy as int * cw as int + xx as int,
                            cw as int,
                            yy as int,
                            xx as int,
                        );
                    }
                    crop.push(hi[(y0 + yy) * 280 + (x0 + xx)]);
                    xx = xx + 1;
                }
                proof {
                    assert((yy as int + 1) * cw as int == yy as int * cw as int + cw as int)
                        by (nonlinear_arith);
                }
                yy = yy + 1;
            }
            proof {
                assert(crop@.len() == ch * cw) by (nonlinear_arith)
                    requires
                        crop@.len() == ch as int * cw as int,
                ;
                assert(cw as int * ch as int == ch as int * cw as int) by (nonlinear_arith);
                assert(crop@ =~= crop_seq(
                    hi@,
                    x0 as int,
                    y0 as int,
                    cw as int,
                    ch as int,
                ));
            }
            let r20 = resize_bilinear(&crop, cw, ch);
            let mut out: Vec<u32> = Vec::new();
            let mut y2: usize = 0;
            while y2 < 28
                invariant
                    0 <= y2 <= 28,
                    out@.len() == y2 * 28,
                    forall|j: int| 0 <= j < out@.len() ==> out@[j] as int == norm_pix(hi@, j) && 0
                        <= out@[j] <= 36100,
                decreases 28 - y2,
            {
                let mut x2: usize = 0;
                while x2 < 28
                    invariant
                        0 <= x2 <= 28,
                        y2 < 28,
                        out@.len() == y2 * 28 + x2,
                        forall|j: int| 0 <= j < out@.len() ==> out@[j] as int == norm_pix(hi@, j)
                            && 0 <= out@[j] <= 36100,
                    decreases 28 - x2,
                {
                    let v: u32 = if y2 >= 4 && y2 < 24 && x2 >= 4 && x2 < 24 {
                        proof {
                            lemma_fundamental_div_mod_converse(
                                (y2 as int - 4) * 20 + (x2 as int - 4),
                                20,
                                y2 as int - 4,
                                x2 as int - 4,
                            );
                        }
                        let w = r20[(y2 - 4) * 20 + (x2 - 4)];
                        let s = w * 100;
                        if s > 36100 {
                            36100
                        } else {
                            s
                        }
                    } else {
                        0
                    };
                    proof {
                        lemma_fundamental_div_mod_converse(
                            y2 as int * 28 + x2 as int,
                            28,
                            y2 as int,
                            x2 as int,
                        );
                        assert(v as int == norm_pix(hi@, y2 as int * 28 + x2 as int));
                    }
                    out.push(v);
                    x2 = x2 + 1;
                }
                y2 = y2 + 1;
            }
            out
        },
    }
}

/// Sum of `n` consecutive 0/1 intensities in row `y` starting at `x0`.
pub open spec fn row_run(hi: Seq<bool>, y: int, x0: int, n: int) -> int
    decreases n,
{
    if n <= 0 {
        0
    } else {
        row_run(hi, y, x0, n - 1) + ink_val(hi, x0 + (n - 1), y)
    }
}

/// Sum of the intensities of the first `m` rows of a 10-wide block at
/// `(x0, y0)`.
pub open spec fn block_sum(hi: Seq<bool>, x0: int, y0: int, m: int) -> int
    decreases m,
{
    if m <= 0 {
        0
    } else {
        block_sum(hi, x0, y0, m - 1) + row_run(hi, y0 + (m - 1), x0, 10)
    }
}

/// One pixel of the block-average downsample, scaled by 36100: the mean of
/// its 10x10 block is `block_sum / 100`, so the numerator is `361 *
/// block_sum`.
pub open spec fn down_pix(hi: Seq<bool>, j: int) -> int {
    361 * block_sum(hi, 10 * (j % 28), 10 * (j / 28), 10)
}

/// A run of `n` 0/1 intensities sums to at most `n`.
pub proof fn lemma_row_run_bounds(hi: Seq<bool>, y: int, x0: int, n: int)
    requires
        0 <= n,
    ensures
        0 <= row_run(hi, y, x0, n) <= n,
    decreases n,
{
    if n > 0 {
        lemma_row_run_bounds(hi, y, x0, n - 1);
    }
}

/// `m` rows of ten 0/1 intensities sum to at most `10 m`.
pub proof fn lemma_block_sum_bounds(hi: Seq<bool>, x0: int, y0: int, m: int)
    requires
        0 <= m,
    ensures
        0 <= block_sum(hi, x0, y0, m) <= 10 * m,
    decreases m,
{
    if m > 0 {
        lemma_block_sum_bounds(hi, x0, y0, m - 1);
        lemma_row_run_bounds(hi, y0 + (m - 1), x0, 10);
    }
}

/// Downsample the buffer to 28x28 by averaging each aligned 10x10 block;
/// each output value is the block mean as a numerator over 36100.
#[verifier::loop_isolation(false)]
pub fn downsample_hi_to_28(hi: &Vec<bool>) -> (out: Vec<u32>)
    requires
        hi@.len() == 78400,
    ensures
        out@.len() == 784,
        forall|j: int| 0 <= j < 784 ==> 0 <= #[trigger] out@[j] <= 36100,
        forall|j: int| 0 <= j < 784 ==> out@[j] as int == down_pix(hi@, j),
{
    let mut out: Vec<u32> = Vec::new();
    let mut y2: usize = 0;
    while y2 < 28
        invariant
            0 <= y2 <= 28,
            out@.len() == y2 * 28,
            forall|j: int|
                0 <= j < out@.len() ==> out@[j] as int == down_pix(hi@, j) && 0 <= out@[j]
                    <= 36100,
        decreases 28 - y2,
    {
        let mut x2: usize = 0;
        while x2 < 28
            invariant
                0 <= x2 <= 28,
                y2 < 28,
                out@.len() == y2 * 28 + x2,
                forall|j: int|
                    0 <= j < out@.len() ==> out@[j] as int == down_pix(hi@, j) && 0 <= out@[j]
                        <= 36100,
            decreases 28 - x2,
        {
            let x0: usize = 10 * x2;
            let y0: usize = 10 * y2;
            let mut sum: u32 = 0;
            let mut by: usize = 0;
            while by < 10
                invariant
                    0 <= by <= 10,
                    x0 == 10 * x2,
                    y0 == 10 * y2,
                    x2 < 28,
                    y2 < 28,
                    sum as int == block_sum(hi@, x0 as int, y0 as int, by as int),
                    0 <= sum <= 100,
                decreases 10 - by,
            {
                let mut bx: usize = 0;
                while bx < 10
                    invariant
                        0 <= bx <= 10,
                        by < 10,
                        sum as int == block_sum(hi@, x0 as int, y0 as int, by as int) + row_run(
                            hi@,
                            y0 as int + by as int,
                            x0 as int,
                            bx as int,
                        ),
                        0 <= sum <= 100,
                    decreases 10 - bx,
                {
                    proof {
                        lemma_block_sum_bounds(hi@, x0 as int, y0 as int, by as int);
                        lemma_row_run_bounds(hi@, y0 as int + by as int, x0 as int, bx as int);
                    }
                    if hi[(y0 + by) * 280 + (x0 + bx)] {
                        sum = sum + 1;
                    }
                    bx = bx + 1;
                }
                by = by + 1;
            }
            proof {
                lemma_block_sum_bounds(hi@, x0 as int, y0 as int, 10);
                lemma_fundamental_div_mod_converse(
                    y2 as int * 28 + x2 as int,
                    28,
                    y2 as int,
                    x2 as int,
                );
                assert(sum * 361 <= 36100);
            }
            out.push(sum * 361);
            x2 = x2 + 1;
        }
        y2 = y2 + 1;
    }
    out
}

} // verus!
