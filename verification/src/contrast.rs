//! Contrast normalisation, binarisation and sharpening of rasters.

use vstd::prelude::*;
use crate::histogram::{contrast_percentiles, is_stretch, law_stretch_unique};
use crate::raster::{grayscale, luma, GrayImage, RgbaImage};

verus! {

/// `v` moved from the range `p1 .. p1 + range` to `0 .. 255`, rounded to the nearest integer
/// (halves go up) and clamped.
pub open spec fn stretched(v: int, p1: int, range: int) -> int {
    if v <= p1 {
        0
    } else {
        let q = (2 * ((v - p1) * 255) + range) / (2 * range);
        if q < 255 {
            q
        } else {
            255
        }
    }
}

/// Applies a contrast stretch to one channel value.
pub fn stretch(v: u8, p1: u8, range: u8) -> (r: u8)
    requires
        range > 0,
    ensures
        r == stretched(v as int, p1 as int, range as int),
{
    if v <= p1 {
        0
    } else {
        let num: u32 = 2 * ((v - p1) as u32 * 255) + range as u32;
        let q: u32 = num / (2 * range as u32);
        if q < 255 {
            q as u8
        } else {
            255
        }
    }
}

/// The byte that `v` becomes under the contrast range `r`.
pub open spec fn normalised(v: u8, r: Option<(u8, u8)>) -> int {
    match r {
        Some((p1, p99)) => stretched(v as int, p1 as int, p99 - p1),
        None => v as int,
    }
}

/// `out` is `vals` stretched over the range between its first and ninety-ninth percentile.
pub open spec fn is_normalised(vals: Seq<u8>, out: Seq<u8>) -> bool {
    exists|r: Option<(u8, u8)>| #[trigger]
        is_stretch(vals, r) && out.len() == vals.len() && forall|i: int|
            0 <= i < vals.len() ==> #[trigger] out[i] == normalised(vals[i], r)
}

/// Contrast-normalises a grayscale image by a percentile stretch.
pub fn contrast_normalize_char(img: GrayImage) -> (out: GrayImage)
    requires
        img.wf(),
        img.data@.len() * 99 <= u32::MAX,
    ensures
        out.wf(),
        out.width == img.width,
        out.height == img.height,
        is_normalised(img.data@, out.data@),
{
    let range: Option<(u8, u8)> = contrast_percentiles(img.data.as_slice());
    match range {
        None => {
            assert(is_stretch(img.data@, None));
            img
        },
        Some((p1, p99)) => {
            let mut data: Vec<u8> = Vec::new();
            let n: usize = img.data.len();
            for i in 0..n
                invariant
                    n == img.data@.len(),
                    p1 < p99,
                    data@.len() == i,
                    forall|k: int|
                        0 <= k < i ==> #[trigger] data@[k] == normalised(
                            img.data@[k],
                            Some((p1, p99)),
                        ),
            {
                data.push(stretch(img.data[i], p1, p99 - p1));
            }
            assert(is_stretch(img.data@, Some((p1, p99))));
            GrayImage { width: img.width, height: img.height, data }
        },
    }
}

/// The luminance of each pixel of an RGBA buffer.
pub open spec fn luma_of(data: Seq<u8>) -> Seq<u8> {
    Seq::new(
        (data.len() / 4) as nat,
        |i: int| luma(data[i * 4], data[i * 4 + 1], data[i * 4 + 2]) as u8,
    )
}

/// `out` is the RGBA buffer `data` with its three colour channels stretched by the contrast
/// range of the luminance, and alpha kept.
pub open spec fn is_normalised_rgba(data: Seq<u8>, out: Seq<u8>) -> bool {
    exists|r: Option<(u8, u8)>| #[trigger]
        is_stretch(luma_of(data), r) && out.len() == data.len() && forall|i: int|
            0 <= i < data.len() ==> #[trigger] out[i] == if i % 4 == 3 {
                data[i] as int
            } else {
                normalised(data[i], r)
            }
}

/// Contrast-normalises an RGBA image by the stretch of its luminance, preserving colour.
pub fn contrast_normalize_rgba(img: &RgbaImage) -> (out: RgbaImage)
    requires
        img.wf(),
        img.width * img.height * 99 <= u32::MAX,
    ensures
        out.wf(),
        out.width == img.width,
        out.height == img.height,
        is_normalised_rgba(img.data@, out.data@),
{
    let gray: GrayImage = grayscale(img);
    assert(gray.data@ =~= luma_of(img.data@));
    let range: Option<(u8, u8)> = contrast_percentiles(gray.data.as_slice());
    let mut data: Vec<u8> = Vec::new();
    let n: usize = img.data.len();
    for i in 0..n
        invariant
            n == img.data@.len(),
            is_stretch(luma_of(img.data@), range),
            data@.len() == i,
            forall|k: int|
                0 <= k < i ==> #[trigger] data@[k] == if k % 4 == 3 {
                    img.data@[k] as int
                } else {
                    normalised(img.data@[k], range)
                },
    {
        let v: u8 = img.data[i];
        let w: u8 = if i % 4 == 3 {
            v
        } else {
            match range {
                Some((p1, p99)) => stretch(v, p1, p99 - p1),
                None => v,
            }
        };
        data.push(w);
    }
    RgbaImage { width: img.width, height: img.height, data }
}

/// A stretch keeps the order of values, and takes the ends of its range to black and white.
pub proof fn law_stretch_monotone(v: int, u: int, p1: int, range: int)
    requires
        0 < range,
        v <= u,
    ensures
        stretched(v, p1, range) <= stretched(u, p1, range),
        0 <= stretched(v, p1, range) <= 255,
        stretched(p1, p1, range) == 0,
        stretched(p1 + range, p1, range) == 255,
{
    if v > p1 {
        let a = 2 * ((v - p1) * 255) + range;
        let b = 2 * ((u - p1) * 255) + range;
        vstd::arithmetic::div_mod::lemma_div_is_ordered(a, b, 2 * range);
        vstd::arithmetic::div_mod::lemma_div_pos_is_pos(a, 2 * range);
    }
    if u > p1 {
        vstd::arithmetic::div_mod::lemma_div_pos_is_pos(2 * ((u - p1) * 255) + range, 2 * range);
    }
    let top = 2 * (range * 255) + range;
    assert(top == (2 * range) * 255 + range) by (nonlinear_arith)
        requires
            top == 2 * (range * 255) + range,
    ;
    assert((p1 + range - p1) * 255 == range * 255) by (nonlinear_arith);
    vstd::arithmetic::div_mod::lemma_fundamental_div_mod_converse(top, 2 * range, 255, range);
}

/// A stretch over the full range changes nothing.
pub proof fn law_full_range_is_identity(v: u8)
    ensures
        stretched(v as int, 0, 255) == v,
{
    let q = 2 * (v * 255) + 255;
    vstd::arithmetic::div_mod::lemma_fundamental_div_mod_converse(q, 510, v as int, 255);
}

/// Black below the threshold, white from it on.
pub open spec fn binarised(v: u8, threshold: u8) -> u8 {
    if v < threshold {
        0
    } else {
        255
    }
}

/// Binarises an image: values below `threshold` become black, all others white.
pub fn binarize(img: &GrayImage, threshold: u8) -> (out: GrayImage)
    requires
        img.wf(),
    ensures
        out.wf(),
        out.width == img.width,
        out.height == img.height,
        out.data@ == Seq::new(img.data@.len(), |i: int| binarised(img.data@[i], threshold)),
{
    let mut data: Vec<u8> = Vec::new();
    let n: usize = img.data.len();
    for i in 0..n
        invariant
            n == img.data@.len(),
            data@.len() == i,
            forall|k: int| 0 <= k < i ==> #[trigger] data@[k] == binarised(img.data@[k], threshold),
    {
        let v: u8 = img.data[i];
        data.push(
            if v < threshold {
                0
            } else {
                255
            },
        );
    }
    assert(data@ =~= Seq::new(img.data@.len(), |i: int| binarised(img.data@[i], threshold)));
    GrayImage { width: img.width, height: img.height, data }
}

/// Binarising twice at one threshold is binarising once.
pub proof fn law_binarize_idempotent(v: u8, threshold: u8)
    ensures
        binarised(binarised(v, threshold), threshold) == binarised(v, threshold),
{
}

/// A pixel pushed away from its blurred version by half the difference, clamped to a byte
/// and rounded down.
pub open spec fn sharpened(v: u8, blurred: u8) -> int {
    let twice = 3 * v - blurred;
    if twice < 0 {
        0
    } else if twice / 2 > 255 {
        255
    } else {
        twice / 2
    }
}

/// Sharpens an image by unsharp masking, given its blurred version.
pub fn unsharp(img: &GrayImage, blurred: &GrayImage) -> (out: GrayImage)
    requires
        img.wf(),
        blurred.data@.len() == img.data@.len(),
    ensures
        out.wf(),
        out.width == img.width,
        out.height == img.height,
        out.data@.len() == img.data@.len(),
        forall|i: int|
            0 <= i < img.data@.len() ==> #[trigger] out.data@[i] == sharpened(
                img.data@[i],
                blurred.data@[i],
            ),
{
    let mut data: Vec<u8> = Vec::new();
    let n: usize = img.data.len();
    for i in 0..n
        invariant
            n == img.data@.len(),
            n == blurred.data@.len(),
            data@.len() == i,
            forall|k: int|
                0 <= k < i ==> #[trigger] data@[k] == sharpened(img.data@[k], blurred.data@[k]),
    {
        let thrice: u16 = 3 * img.data[i] as u16;
        let b: u16 = blurred.data[i] as u16;
        let v: u8 = if thrice < b {
            0
        } else {
            let half: u16 = (thrice - b) / 2;
            if half > 255 {
                255
            } else {
                half as u8
            }
        };
        data.push(v);
    }
    GrayImage { width: img.width, height: img.height, data }
}

// --- Stretching away from the middle ---

/// A level moved away from the middle one, the more the farther it is from it, rounded down
/// and clamped. With `k` for how far the level is above 128, it comes to stand at
/// `128 + k * (1 + |k| / 256)`.
pub open spec fn spread(v: u8) -> int {
    let k = v as int - 128;
    let far = if k < 0 {
        -k
    } else {
        k
    };
    let scaled = 32768 + k * (256 + far);
    if scaled < 0 {
        0
    } else if scaled / 256 > 255 {
        255
    } else {
        scaled / 256
    }
}

fn spread_level(v: u8) -> (r: u8)
    ensures
        r == spread(v),
{
    let k: i32 = v as i32 - 128;
    let far: i32 = if k < 0 {
        0 - k
    } else {
        k
    };
    assert(-49152 <= k * (256 + far) <= 48641) by (nonlinear_arith)
        requires
            -128 <= k <= 127,
            k < 0 ==> far == -k,
            k >= 0 ==> far == k,
    ;
    let scaled: i32 = 32768 + k * (256 + far);
    if scaled < 0 {
        0
    } else if scaled / 256 > 255 {
        255
    } else {
        (scaled / 256) as u8
    }
}

/// Moves the levels of an image away from the middle one.
pub fn contrast_stretch(img: &GrayImage) -> (out: GrayImage)
    requires
        img.wf(),
    ensures
        out.wf(),
        out.width == img.width,
        out.height == img.height,
        out.data@.len() == img.data@.len(),
        forall|i: int| 0 <= i < img.data@.len() ==> #[trigger] out.data@[i] == spread(img.data@[i]),
{
    let n: usize = img.data.len();
    let mut data: Vec<u8> = Vec::new();
    for i in 0..n
        invariant
            n == img.data@.len(),
            data@.len() == i,
            forall|k: int| 0 <= k < i ==> #[trigger] data@[k] == spread(img.data@[k]),
    {
        data.push(spread_level(img.data[i]));
    }
    GrayImage { width: img.width, height: img.height, data }
}

/// Of two levels the darker one stays at least as dark, and the middle one stays.
pub proof fn law_spread_monotone(u: u8, v: u8)
    requires
        u <= v,
    ensures
        spread(u) <= spread(v),
        spread(128) == 128,
{
    let a = u as int - 128;
    let b = v as int - 128;
    let fa = if a < 0 {
        -a
    } else {
        a
    };
    let fb = if b < 0 {
        -b
    } else {
        b
    };
    assert(a * (256 + fa) <= b * (256 + fb)) by (nonlinear_arith)
        requires
            -128 <= a <= b <= 127,
            fa == (if a < 0 {
                -a
            } else {
                a
            }),
            fb == (if b < 0 {
                -b
            } else {
                b
            }),
    ;
}

// --- What the levels become ---

/// A stretched level is the byte nearest to its share of the range, halves going up. Levels
/// below the range become black, and those above it white.
pub proof fn law_stretch_nearest(v: int, p1: int, range: int)
    requires
        0 < range,
    ensures
        v <= p1 ==> stretched(v, p1, range) == 0,
        v >= p1 + range ==> stretched(v, p1, range) == 255,
        p1 <= v <= p1 + range ==> 510 * (v - p1) - range < 2 * (range * stretched(v, p1, range))
            <= 510 * (v - p1) + range,
{
    law_stretch_monotone(v, v, p1, range);
    if v >= p1 + range {
        law_stretch_monotone(p1 + range, v, p1, range);
    }
    let s = stretched(v, p1, range);
    if p1 < v <= p1 + range {
        let a = 2 * ((v - p1) * 255) + range;
        let d = 2 * range;
        let q = a / d;
        vstd::arithmetic::div_mod::lemma_fundamental_div_mod(a, d);
        vstd::arithmetic::div_mod::lemma_mod_bound(a, d);
        assert(d * q == 2 * (range * q)) by (nonlinear_arith)
            requires
                d == 2 * range,
        ;
        assert(q <= 255) by (nonlinear_arith)
            requires
                2 * (range * q) <= 510 * (v - p1) + range,
                v - p1 <= range,
                range > 0,
        ;
        assert(s == q);
    }
    if v == p1 {
        assert(range * 0 == 0) by (nonlinear_arith);
    }
}

/// Each byte of a normalised image is the stretched level of the same byte, by the one stretch
/// of the image; without a stretch all bytes stay.
pub proof fn law_normalised(vals: Seq<u8>, out: Seq<u8>, r: Option<(u8, u8)>)
    requires
        is_normalised(vals, out),
        is_stretch(vals, r),
    ensures
        out.len() == vals.len(),
        r is None ==> out == vals,
        r matches Some((p1, p99)) ==> forall|i: int|
            0 <= i < vals.len() ==> #[trigger] out[i] == stretched(vals[i] as int, p1 as int, p99 - p1),
{
    let s = choose|s: Option<(u8, u8)>| #[trigger]
        is_stretch(vals, s) && out.len() == vals.len() && forall|i: int|
            0 <= i < vals.len() ==> #[trigger] out[i] == normalised(vals[i], s);
    law_stretch_unique(vals, r, s);
    if r is None {
        assert(out =~= vals);
    }
}

/// Normalising a colour image keeps every alpha byte, and moves the bytes of all three colours
/// by the one stretch of the luminance.
pub proof fn law_normalised_rgba(data: Seq<u8>, out: Seq<u8>, r: Option<(u8, u8)>, p: int)
    requires
        is_normalised_rgba(data, out),
        is_stretch(luma_of(data), r),
        0 <= p,
        4 * p + 3 < data.len(),
    ensures
        out.len() == data.len(),
        out[4 * p + 3] == data[4 * p + 3],
        r is None ==> forall|c: int| 0 <= c < 3 ==> out[#[trigger] (4 * p + c)] == data[4 * p + c],
        r matches Some((p1, p99)) ==> forall|c: int|
            0 <= c < 3 ==> out[#[trigger] (4 * p + c)] == stretched(
                data[4 * p + c] as int,
                p1 as int,
                p99 - p1,
            ),
{
    let s = choose|s: Option<(u8, u8)>| #[trigger]
        is_stretch(luma_of(data), s) && out.len() == data.len() && forall|i: int|
            0 <= i < data.len() ==> #[trigger] out[i] == if i % 4 == 3 {
                data[i] as int
            } else {
                normalised(data[i], s)
            };
    law_stretch_unique(luma_of(data), r, s);
    assert((4 * p + 3) % 4 == 3);
    assert forall|c: int| 0 <= c < 3 implies out[#[trigger] (4 * p + c)] == normalised(
        data[4 * p + c],
        r,
    ) by {
        assert((4 * p + c) % 4 == c);
    }
}

/// The luminance of a gray is that gray, brighter channels never make it darker, and green
/// weighs more than red, and red more than blue.
pub proof fn law_luma(r: u8, g: u8, b: u8, v: u8)
    ensures
        luma(v, v, v) == v,
        0 <= luma(r, g, b) <= 255,
        r <= v ==> luma(r, g, b) <= luma(v, g, b),
        g <= v ==> luma(r, g, b) <= luma(r, v, b),
        b <= v ==> luma(r, g, b) <= luma(r, g, v),
        luma(0, v, 0) >= luma(v, 0, 0) >= luma(0, 0, v),
        10000 * luma(r, g, b) <= 2126 * r + 7152 * g + 722 * b < 10000 * (luma(r, g, b) + 1),
{
}

/// Levels below the threshold become black and all others white.
pub proof fn law_binarised(v: u8, threshold: u8)
    ensures
        v < threshold <==> binarised(v, threshold) == 0,
        threshold <= v <==> binarised(v, threshold) == 255,
{
}

/// Sharpening leaves a level that equals its surroundings, moves any other away from them by
/// half the difference, rounded down, and never leaves the range of a byte.
pub proof fn law_sharpened(v: u8, blurred: u8)
    ensures
        0 <= sharpened(v, blurred) <= 255,
        sharpened(v, v) == v,
        v > blurred ==> sharpened(v, blurred) >= v,
        v < blurred ==> sharpened(v, blurred) <= v,
        0 < sharpened(v, blurred) < 255 ==> v - blurred - 1 <= 2 * (sharpened(v, blurred) - v) <= v
            - blurred,
        sharpened(v, blurred) == 0 <==> 3 * v - blurred <= 1,
        sharpened(v, blurred) == 255 <==> 3 * v - blurred >= 510,
{
}

/// A level `k` above the middle one moves up by `k` times `k` over 256, rounded down, and one
/// `k` below it moves down by as much, rounded up, as far as there are levels.
pub proof fn law_spread(v: u8)
    ensures
        0 <= spread(v) <= 255,
        v >= 128 && spread(v) < 255 ==> 256 * (spread(v) - v) <= (v - 128) * (v - 128) < 256 * (
        spread(v) - v + 1),
        v <= 128 && spread(v) > 0 ==> 256 * (v - spread(v)) >= (128 - v) * (128 - v) > 256 * (v
            - spread(v) - 1),
        v >= 128 ==> spread(v) >= v,
        v <= 128 ==> spread(v) <= v,
        spread(v) == 255 ==> v >= 128 && (v - 128) * (v - 128) >= 256 * (255 - v),
        spread(v) == 0 ==> v <= 128 && (128 - v) * (128 - v) > 256 * (v - 1),
{
    let k = v as int - 128;
    if v >= 128 {
        assert(k * (256 + k) == 256 * k + k * k) by (nonlinear_arith);
        assert(0 <= k * k) by (nonlinear_arith);
        assert((v - 128) * (v - 128) == k * k);
        if k == 0 {
            assert(k * k == 0) by (nonlinear_arith)
                requires
                    k == 0,
            ;
        }
        assert((128 - v) * (128 - v) == k * k) by (nonlinear_arith)
            requires
                k == v - 128,
        ;
    } else {
        assert(k * (256 + (-k)) == 256 * k - k * k) by (nonlinear_arith);
        assert(0 <= k * k) by (nonlinear_arith);
        assert((128 - v) * (128 - v) == k * k) by (nonlinear_arith)
            requires
                k == v - 128,
        ;
    }
}

} // verus!
