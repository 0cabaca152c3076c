//! Raster images as plain row-major buffers.

use vstd::prelude::*;
use crate::grid::{lemma_cell, lemma_flat};

verus! {

/// An 8-bit grayscale image.
#[derive(Clone, Debug)]
pub struct GrayImage {
    pub width: u32,
    pub height: u32,
    pub data: Vec<u8>,
}

/// An 8-bit image with red, green, blue and alpha channels.
#[derive(Clone, Debug)]
pub struct RgbaImage {
    pub width: u32,
    pub height: u32,
    pub data: Vec<u8>,
}

/// An 8-bit image with red, green and blue channels.
#[derive(Clone, Debug)]
pub struct RgbImage {
    pub width: u32,
    pub height: u32,
    pub data: Vec<u8>,
}

impl GrayImage {
    /// The buffer holds one byte per pixel.
    pub open spec fn wf(&self) -> bool {
        self.data@.len() == self.width * self.height
    }

    /// The pixel in column `x`, row `y`.
    pub open spec fn px(&self, x: int, y: int) -> u8 {
        self.data@[y * self.width + x]
    }

    /// An image filled with one value.
    pub fn from_pixel(width: u32, height: u32, value: u8) -> (img: GrayImage)
        requires
            width * height <= usize::MAX,
        ensures
            img.wf(),
            img.width == width,
            img.height == height,
            img.data@ == Seq::new((width * height) as nat, |i: int| value),
    {
        assert(0 <= width * height) by (nonlinear_arith);
        let n: usize = width as usize * height as usize;
        let data: Vec<u8> = vec![value; n];
        assert(data@ =~= Seq::new((width * height) as nat, |i: int| value));
        GrayImage { width, height, data }
    }

    /// Wraps a buffer, if it has the right length.
    pub fn from_raw(width: u32, height: u32, data: Vec<u8>) -> (img: Option<GrayImage>)
        ensures
            img is Some <==> data@.len() == width * height,
            img is Some ==> img->0.wf() && img->0.width == width && img->0.height == height
                && img->0.data@ == data@,
    {
        let want: u64 = mul_sides(width, height);
        if data.len() as u64 == want {
            Some(GrayImage { width, height, data })
        } else {
            None
        }
    }

    /// The pixel in column `x`, row `y`.
    pub fn get(&self, x: u32, y: u32) -> (v: u8)
        requires
            self.wf(),
            x < self.width,
            y < self.height,
        ensures
            v == self.px(x as int, y as int),
    {
        let n: usize = self.data.len();
        proof {
            lemma_flat(self.width as int, self.height as int, x as int, y as int);
        }
        self.data[y as usize * self.width as usize + x as usize]
    }

    /// The rectangle of `w` by `h` pixels whose top left corner is at `(x, y)`.
    pub fn crop(&self, x: u32, y: u32, w: u32, h: u32) -> (img: GrayImage)
        requires
            self.wf(),
            x + w <= self.width,
            y + h <= self.height,
        ensures
            img.wf(),
            img.width == w,
            img.height == h,
            forall|cx: int, cy: int|
                0 <= cx < w && 0 <= cy < h ==> #[trigger] img.px(cx, cy) == self.px(x + cx, y + cy),
    {
        let total: usize = self.data.len();
        assert(w * h <= self.width * self.height) by (nonlinear_arith)
            requires
                w <= self.width,
                h <= self.height,
        ;
        assert(0 <= w * h) by (nonlinear_arith);
        let n: usize = w as usize * h as usize;
        let iw: usize = self.width as usize;
        let mut data: Vec<u8> = Vec::new();
        for k in 0..n
            invariant
                self.wf(),
                total == self.data@.len(),
                iw == self.width,
                n == w * h,
                x + w <= self.width,
                y + h <= self.height,
                data@.len() == k,
                forall|j: int|
                    0 <= j < k ==> #[trigger] data@[j] == self.px(
                        x + j % (w as int),
                        y + j / (w as int),
                    ),
        {
            proof {
                lemma_cell(w as int, h as int, k as int);
                lemma_flat(
                    self.width as int,
                    self.height as int,
                    x + k as int % (w as int),
                    y + k as int / (w as int),
                );
            }
            let col: usize = k % w as usize;
            let row: usize = k / w as usize;
            data.push(self.data[(y as usize + row) * iw + (x as usize + col)]);
        }
        proof {
            assert forall|cx: int, cy: int| 0 <= cx < w && 0 <= cy < h implies #[trigger] data@[cy * w
                + cx] == self.px(x + cx, y + cy) by {
                lemma_flat(w as int, h as int, cx, cy);
            }
        }
        GrayImage { width: w, height: h, data }
    }
}

/// The number of cells of a rectangle.
pub fn mul_sides(width: u32, height: u32) -> (n: u64)
    ensures
        n == width * height,
{
    assert(0 <= width * height <= 0xffff_ffff * 0xffff_ffff) by (nonlinear_arith)
        requires
            width <= 0xffff_ffff,
            height <= 0xffff_ffff,
    ;
    width as u64 * height as u64
}

impl RgbaImage {
    /// The buffer holds four bytes per pixel.
    pub open spec fn wf(&self) -> bool {
        self.data@.len() == self.width * self.height * 4
    }

    /// Channel `c` of the pixel in column `x`, row `y`.
    pub open spec fn channel(&self, x: int, y: int, c: int) -> u8 {
        self.data@[(y * self.width + x) * 4 + c]
    }

    /// Wraps a buffer, if it has the right length.
    pub fn from_raw(width: u32, height: u32, data: Vec<u8>) -> (img: Option<RgbaImage>)
        ensures
            img is Some <==> data@.len() == width * height * 4,
            img is Some ==> img->0.wf() && img->0.width == width && img->0.height == height
                && img->0.data@ == data@,
    {
        let want: u64 = mul_sides(width, height);
        if data.len() % 4 == 0 && (data.len() / 4) as u64 == want {
            Some(RgbaImage { width, height, data })
        } else {
            None
        }
    }
}

impl RgbImage {
    /// The buffer holds three bytes per pixel.
    pub open spec fn wf(&self) -> bool {
        self.data@.len() == self.width * self.height * 3
    }

    /// Channel `c` of the pixel in column `x`, row `y`.
    pub open spec fn channel(&self, x: int, y: int, c: int) -> u8 {
        self.data@[(y * self.width + x) * 3 + c]
    }
}

/// The luminance of a colour, by the weights of the sRGB primaries.
pub open spec fn luma(r: u8, g: u8, b: u8) -> int {
    (2126 * r + 7152 * g + 722 * b) / 10000
}

/// Calls `image::imageops::grayscale` on an RGBA buffer. The outside function returns an
/// image of the same size, in which each pixel is the integer luminance of its colour, the
/// weighted sum of the three channels divided by ten thousand and rounded down; alpha plays
/// no part.
#[verifier::external_body]
fn grayscale_rgba(width: u32, height: u32, data: &Vec<u8>) -> (gray: Vec<u8>)
    requires
        data@.len() == width * height * 4,
    ensures
        gray@.len() == width * height,
        forall|i: int|
            0 <= i < gray@.len() ==> #[trigger] gray@[i] == luma(
                data@[i * 4],
                data@[i * 4 + 1],
                data@[i * 4 + 2],
            ),
{
    let img = image::RgbaImage::from_raw(width, height, data.clone()).unwrap();
    image::imageops::grayscale(&img).into_raw()
}

/// The grayscale version of an image.
pub fn grayscale(img: &RgbaImage) -> (gray: GrayImage)
    requires
        img.wf(),
    ensures
        gray.wf(),
        gray.width == img.width,
        gray.height == img.height,
        forall|i: int|
            0 <= i < gray.data@.len() ==> #[trigger] gray.data@[i] == luma(
                img.data@[i * 4],
                img.data@[i * 4 + 1],
                img.data@[i * 4 + 2],
            ),
{
    let data: Vec<u8> = grayscale_rgba(img.width, img.height, &img.data);
    GrayImage { width: img.width, height: img.height, data }
}

/// The longest side of an image that is resampled. The resampler finds its place in the source
/// in single precision; up to this side it misses the place by less than half a pixel, so
/// that every window holds a sample of positive weight.
pub const SIDE_LIMIT: u32 = 0x20_0000;

/// An image of `w` by `h` pixels can be brought to `new_w` by `new_h` pixels.
pub open spec fn resizable(w: u32, h: u32, new_w: u32, new_h: u32) -> bool {
    &&& new_w * new_h <= isize::MAX
    &&& {
        ||| w == new_w && h == new_h
        ||| w == 0 || h == 0
        ||| {
            &&& w <= SIDE_LIMIT && h <= SIDE_LIMIT
            &&& new_w <= SIDE_LIMIT && new_h <= SIDE_LIMIT
            &&& w * new_h * 16 <= isize::MAX
        }
    }
}

/// Whether an image of `w` by `h` pixels can be brought to `new_w` by `new_h` pixels.
pub fn can_resize(w: u32, h: u32, new_w: u32, new_h: u32) -> (r: bool)
    ensures
        r == resizable(w, h, new_w, new_h),
{
    assert(0 <= new_w * new_h <= 0xffff_ffff * 0xffff_ffff) by (nonlinear_arith)
        requires
            0 <= new_w <= 0xffff_ffff,
            0 <= new_h <= 0xffff_ffff,
    ;
    assert(0 <= w * new_h <= 0xffff_ffff * 0xffff_ffff) by (nonlinear_arith)
        requires
            0 <= w <= 0xffff_ffff,
            0 <= new_h <= 0xffff_ffff,
    ;
    if new_w as u128 * new_h as u128 > isize::MAX as u128 {
        return false;
    }
    let kept: bool = w == new_w && h == new_h;
    let empty: bool = w == 0 || h == 0;
    kept || empty || (w <= SIDE_LIMIT && h <= SIDE_LIMIT && new_w <= SIDE_LIMIT && new_h
        <= SIDE_LIMIT && w as u128 * new_h as u128 * 16 <= isize::MAX as u128)
}

/// Calls `image::imageops::resize` with the Lanczos filter of window three. The outside
/// function returns an image of the requested size: a copy if the size does not change,
/// and zeros if the source has no pixels. The other pixel values go through `sin` in
/// single precision, which differs between platforms, and are left open. Longer sides are
/// left out, as the rounded place of a pixel may there have no sample of its own, and the
/// outside function panics on the quotient of two zeros.
#[verifier::external_body]
fn resize_lanczos(width: u32, height: u32, data: &Vec<u8>, new_w: u32, new_h: u32) -> (out: Vec<u8>)
    requires
        data@.len() == width * height,
        resizable(width, height, new_w, new_h),
    ensures
        out@.len() == new_w * new_h,
        new_w == width && new_h == height ==> out@ == data@,
        width == 0 || height == 0 ==> forall|i: int|
            0 <= i < out@.len() ==> #[trigger] out@[i] == 0,
{
    let img = image::GrayImage::from_raw(width, height, data.clone()).unwrap();
    let filter = image::imageops::FilterType::Lanczos3;
    image::imageops::resize(&img, new_w, new_h, filter).into_raw()
}

/// `out` is `img` in another size. What the resampler makes of the pixels is left open,
/// unless the size does not change.
pub open spec fn in_size(img: GrayImage, w: u32, h: u32, out: GrayImage) -> bool {
    &&& out.wf()
    &&& out.width == w
    &&& out.height == h
    &&& img.width == w && img.height == h ==> out.data@ == img.data@
}

/// An image resampled to another size.
pub fn resize(img: &GrayImage, new_w: u32, new_h: u32) -> (r: GrayImage)
    requires
        img.wf(),
        resizable(img.width, img.height, new_w, new_h),
    ensures
        r.wf(),
        r.width == new_w,
        r.height == new_h,
        new_w == img.width && new_h == img.height ==> r.data@ == img.data@,
        img.width == 0 || img.height == 0 ==> forall|i: int|
            0 <= i < r.data@.len() ==> #[trigger] r.data@[i] == 0,
{
    let data: Vec<u8> = resize_lanczos(img.width, img.height, &img.data, new_w, new_h);
    GrayImage { width: new_w, height: new_h, data }
}

/// The pixels of an image stand row by row: the next one in a row is the next byte, the first
/// one is the first byte, and a row begins where the one above it ends.
pub proof fn law_row_major(img: GrayImage, x: int, y: int)
    requires
        img.wf(),
        0 <= x < img.width,
        0 <= y < img.height,
    ensures
        img.px(x, y) == img.data@[x + img.width * y],
        0 <= x + img.width * y < img.data@.len(),
        img.px(0, 0) == img.data@[0],
{
    let w = img.width as int;
    let h = img.height as int;
    assert(y * w == w * y) by (nonlinear_arith);
    assert(0 <= w * y && x + w * y < w * h) by (nonlinear_arith)
        requires
            0 <= x < w,
            0 <= y < h,
    ;
    assert(0 * w == 0) by (nonlinear_arith);
}

/// The channels of a pixel stand side by side: red first, then green and blue, and alpha where
/// there is one; the next pixel of the row follows.
pub proof fn law_channels(rgba: RgbaImage, rgb: RgbImage, x: int, y: int, c: int)
    requires
        rgba.wf(),
        rgb.wf(),
        rgba.width == rgb.width,
        rgba.height == rgb.height,
        0 <= x < rgb.width,
        0 <= y < rgb.height,
        0 <= c < 3,
    ensures
        rgba.channel(x, y, c) == rgba.data@[4 * x + 4 * (rgba.width * y) + c],
        rgba.channel(x, y, 3) == rgba.data@[4 * x + 4 * (rgba.width * y) + 3],
        rgb.channel(x, y, c) == rgb.data@[3 * x + 3 * (rgb.width * y) + c],
        0 <= 4 * x + 4 * (rgba.width * y) && 4 * x + 4 * (rgba.width * y) + 3 < rgba.data@.len(),
        0 <= 3 * x + 3 * (rgb.width * y) && 3 * x + 3 * (rgb.width * y) + 2 < rgb.data@.len(),
{
    let w = rgb.width as int;
    let h = rgb.height as int;
    assert(y * w == w * y) by (nonlinear_arith);
    assert(0 <= w * y && x + w * y < w * h) by (nonlinear_arith)
        requires
            0 <= x < w,
            0 <= y < h,
    ;
}


} // verus!
