//! Byte encodings of normalized images: the 784-byte sample format (one
//! rounded intensity byte per pixel) and an uncompressed bottom-up 24-bit
//! grayscale bitmap with the standard 14-byte file header and 40-byte info
//! header, rows padded to 4-byte boundaries. Writing the bytes anywhere is
//! the caller's concern; nothing here performs I/O.

use vstd::prelude::*;
use vstd::arithmetic::div_mod::{
    lemma_div_is_ordered, lemma_fundamental_div_mod, lemma_fundamental_div_mod_converse,
};

verus! {

/// Clamp an intensity numerator to the scale `[0, 36100]`.
pub open spec fn clamp_scale(v: int) -> int {
    if v > 36100 {
        36100
    } else if v < 0 {
        0
    } else {
        v
    }
}

/// The intensity to encode: clamped, and flipped within the scale when
/// `invert` is set.
pub open spec fn shade(v: int, invert: bool) -> int {
    let c = clamp_scale(v);
    if invert {
        36100 - c
    } else {
        c
    }
}

/// An intensity numerator over 36100 as a byte: `255 * v / 36100`, rounded
/// to nearest with halves up, computed exactly as `(51 v + 3610) / 7220`.
pub open spec fn level_255(v: int) -> int {
    (51 * v + 3610) / 7220
}

/// Encode one intensity as its rounded byte.
pub fn to_level(v: u32, invert: bool) -> (b: u8)
    ensures
        b as int == level_255(shade(v as int, invert)),
{
    let c: u32 = if v > 36100 {
        36100
    } else {
        v
    };
    let c2: u32 = if invert {
        36100 - c
    } else {
        c
    };
    let num: u32 = 51 * c2 + 3610;
    let q: u32 = num / 7220;
    proof {
        lemma_div_is_ordered(num as int, 1844710, 7220);
    }
    q as u8
}

/// Pack a 28x28 normalized image as 784 rounded intensity bytes, row-major,
/// for a labeled training sample.
#[verifier::loop_isolation(false)]
pub fn pack_sample_u8(pixels28: &Vec<u32>) -> (bytes: Vec<u8>)
    requires
        pixels28@.len() == 784,
    ensures
        bytes@.len() == 784,
        forall|i: int|
            0 <= i < 784 ==> bytes@[i] as int == level_255(clamp_scale(pixels28@[i] as int)),
{
    let mut bytes: Vec<u8> = Vec::new();
    let mut i: usize = 0;
    while i < 784
        invariant
            0 <= i <= 784,
            bytes@.len() == i,
            forall|k: int|
                0 <= k < i ==> bytes@[k] as int == level_255(clamp_scale(pixels28@[k] as int)),
        decreases 784 - i,
    {
        bytes.push(to_level(pixels28[i], false));
        i = i + 1;
    }
    bytes
}

/// Bytes per bitmap row: three per pixel, padded up to a multiple of four.
pub open spec fn bmp_stride(w: int) -> int {
    ((3 * w + 3) / 4) * 4
}

/// A 16-bit value in little-endian byte order.
pub open spec fn le16(v: int) -> Seq<u8> {
    seq![(v % 256) as u8, (v / 256 % 256) as u8]
}

/// A 32-bit value in little-endian byte order.
pub open spec fn le32(v: int) -> Seq<u8> {
    seq![
        (v % 256) as u8,
        (v / 256 % 256) as u8,
        (v / 65536 % 256) as u8,
        (v / 16777216 % 256) as u8,
    ]
}

/// The 54 header bytes of a 24-bit bottom-up bitmap: the file header
/// ("BM", file size, two reserved words, pixel data offset) followed by the
/// 40-byte info header (size, extents, one plane, 24 bits per pixel, no
/// compression, pixel data size, 72 DPI in pixels per meter, no palette).
pub open spec fn bmp_header(w: int, h: int) -> Seq<u8> {
    seq![0x42u8, 0x4du8] + le32(54 + bmp_stride(w) * h) + le16(0) + le16(0) + le32(54) + le32(40)
        + le32(w) + le32(h) + le16(1) + le16(24) + le32(0) + le32(bmp_stride(w) * h) + le32(2835)
        + le32(2835) + le32(0) + le32(0)
}

/// Byte `k` of the pixel data: rows bottom-up, three identical intensity
/// bytes per pixel, zero padding at each row's end.
pub open spec fn bmp_pix_byte(img: Seq<u32>, w: int, h: int, invert: bool, k: int) -> int {
    let row = k / bmp_stride(w);
    let o = k % bmp_stride(w);
    if o < 3 * w {
        level_255(shade(img[(h - 1 - row) * w + o / 3] as int, invert))
    } else {
        0
    }
}

/// Append a 16-bit value in little-endian byte order.
fn push_le16(out: &mut Vec<u8>, v: u16)
    ensures
        final(out)@ == old(out)@ + le16(v as int),
{
    let ghost pre = out@;
    out.push((v % 256) as u8);
    out.push((v / 256 % 256) as u8);
    proof {
        assert(out@ =~= pre + le16(v as int));
    }
}

/// Append a 32-bit value in little-endian byte order.
fn push_le32(out: &mut Vec<u8>, v: u32)
    ensures
        final(out)@ == old(out)@ + le32(v as int),
{
    let ghost pre = out@;
    out.push((v % 256) as u8);
    out.push((v / 256 % 256) as u8);
    out.push((v / 65536 % 256) as u8);
    out.push((v / 16777216 % 256) as u8);
    proof {
        assert(out@ =~= pre + le32(v as int));
    }
}

/// Encode a grayscale image of intensity numerators over 36100 as a
/// complete 24-bit bottom-up bitmap file image: 54 header bytes, then the
/// padded pixel rows, three identical bytes per pixel.
#[verifier::loop_isolation(false)]
#[verifier::rlimit(80)]
pub fn bmp_encode_gray(w: u32, h: u32, pixels: &Vec<u32>, invert: bool) -> (bytes: Vec<u8>)
    requires
        1 <= w <= 4096,
        1 <= h <= 4096,
        pixels@.len() == w * h,
    ensures
        bytes@.len() == 54 + bmp_stride(w as int) * h,
        forall|k: int| 0 <= k < 54 ==> bytes@[k] == bmp_header(w as int, h as int)[k],
        forall|k: int|
            0 <= k < bmp_stride(w as int) * h ==> bytes@[54 + k] as int == bmp_pix_byte(
                pixels@,
                w as int,
                h as int,
                invert,
                k,
            ),
{
    let stride: u32 = ((3 * w + 3) / 4) * 4;
    proof {
        assert(stride as int == bmp_stride(w as int));
        lemma_fundamental_div_mod(3 * w as int + 3, 4);
        assert(3 * w as int <= stride as int <= 3 * w as int + 3);
        assert(stride as int * h as int <= 12291 * 4096) by (nonlinear_arith)
            requires
                0 <= (stride as int) <= 12291,
                0 <= (h as int) <= 4096,
        ;
    }
    let pix_size: u32 = stride * h;
    let file_size: u32 = 54 + pix_size;
    let mut out: Vec<u8> = Vec::new();
    out.push(0x42);
    out.push(0x4d);
    push_le32(&mut out, file_size);
    push_le16(&mut out, 0);
    push_le16(&mut out, 0);
    push_le32(&mut out, 54);
    push_le32(&mut out, 40);
    push_le32(&mut out, w);
    push_le32(&mut out, h);
    push_le16(&mut out, 1);
    push_le16(&mut out, 24);
    push_le32(&mut out, 0);
    push_le32(&mut out, pix_size);
    push_le32(&mut out, 2835);
    push_le32(&mut out, 2835);
    push_le32(&mut out, 0);
    push_le32(&mut out, 0);
    proof {
        assert(out@.len() == 54);
        assert forall|k: int| 0 <= k < 54 implies out@[k] == bmp_header(w as int, h as int)[k] by {
            assert(out@ =~= bmp_header(w as int, h as int));
        }
    }
    let mut y: u32 = 0;
    while y < h
        invariant
            0 <= y <= h,
            stride as int == bmp_stride(w as int),
            out@.len() == 54 + y as int * stride as int,
            forall|k: int| 0 <= k < 54 ==> out@[k] == bmp_header(w as int, h as int)[k],
            forall|k: int|
                0 <= k < y as int * stride as int ==> out@[54 + k] as int == bmp_pix_byte(
                    pixels@,
                    w as int,
                    h as int,
                    invert,
                    k,
                ),
        decreases h - y,
    {
        let src_y: u32 = h - 1 - y;
        let mut x: u32 = 0;
        while x < w
            invariant
                0 <= x <= w,
                y < h,
                src_y == h - 1 - y,
                stride as int == bmp_stride(w as int),
                out@.len() == 54 + y as int * stride as int + 3 * x as int,
                forall|k: int| 0 <= k < 54 ==> out@[k] == bmp_header(w as int, h as int)[k],
                forall|k: int|
                    0 <= k < y as int * stride as int + 3 * x as int ==> out@[54 + k] as int
                        == bmp_pix_byte(pixels@, w as int, h as int, invert, k),
            decreases w - x,
        {
            proof {
                assert((src_y as int) * (w as int) + (x as int) < (w as int) * (h as int)
                    && (src_y as int) * (w as int) + (x as int) <= 16777216) by (nonlinear_arith)
                    requires
                        0 <= (src_y as int) <= (h as int) - 1,
                        0 <= (x as int) < (w as int),
                        1 <= (w as int) <= 4096,
                        1 <= (h as int) <= 4096,
                ;
            }
            let idx: usize = (src_y * w + x) as usize;
            let b = to_level(pixels[idx], invert);
            out.push(b);
            out.push(b);
            out.push(b);
            proof {
                let base = y as int * stride as int + 3 * x as int;
                lemma_fundamental_div_mod_converse(base, stride as int, y as int, 3 * x as int);
                lemma_fundamental_div_mod_converse(
                    base + 1,
                    stride as int,
                    y as int,
                    3 * x as int + 1,
                );
                lemma_fundamental_div_mod_converse(
                    base + 2,
                    stride as int,
                    y as int,
                    3 * x as int + 2,
                );
                lemma_fundamental_div_mod_converse(3 * x as int, 3, x as int, 0);
                lemma_fundamental_div_mod_converse(3 * x as int + 1, 3, x as int, 1);
                lemma_fundamental_div_mod_converse(3 * x as int + 2, 3, x as int, 2);
                assert(out@[54 + base] as int == bmp_pix_byte(
                    pixels@,
                    w as int,
                    h as int,
                    invert,
                    base,
                ));
                assert(out@[54 + base + 1] as int == bmp_pix_byte(
                    pixels@,
                    w as int,
                    h as int,
                    invert,
                    base + 1,
                ));
                assert(out@[54 + base + 2] as int == bmp_pix_byte(
                    pixels@,
                    w as int,
                    h as int,
                    invert,
                    base + 2,
                ));
            }
            x = x + 1;
        }
        let pad: u32 = stride - 3 * w;
        let mut p: u32 = 0;
        while p < pad
            invariant
                0 <= p <= pad,
                y < h,
                pad == stride - 3 * w,
                stride as int == bmp_stride(w as int),
                out@.len() == 54 + y as int * stride as int + 3 * w as int + p as int,
                forall|k: int| 0 <= k < 54 ==> out@[k] == bmp_header(w as int, h as int)[k],
                forall|k: int|
                    0 <= k < y as int * stride as int + 3 * w as int + p as int ==> out@[54
                        + k] as int == bmp_pix_byte(pixels@, w as int, h as int, invert, k),
            decreases pad - p,
        {
            out.push(0);
            proof {
                let base = y as int * stride as int + 3 * w as int + p as int;
                lemma_fundamental_div_mod_converse(
                    base,
                    stride as int,
                    y as int,
                    3 * w as int + p as int,
                );
            }
            p = p + 1;
        }
        proof {
            assert((y as int + 1) * stride as int == y as int * stride as int + stride as int)
                by (nonlinear_arith);
        }
        y = y + 1;
    }
    proof {
        assert(bmp_stride(w as int) * (h as int) == (y as int) * (stride as int))
            by (nonlinear_arith)
            requires
                stride as int == bmp_stride(w as int),
                y == h,
        ;
    }
    out
}

} // verus!
