//! Colours of text and background, erasure of text, and detection of content.

use vstd::prelude::*;
use crate::counting::{
    tally, total, lemma_tally_bounds, lemma_tally_same, lemma_total_same,
};
use crate::grid::{lemma_cell, lemma_flat};
use crate::histogram::{
    at_most, count_at_most, histogram, is_histogram, is_otsu, law_otsu_unique, lemma_weight_all,
    otsu_from_hist,
};
use crate::raster::{grayscale, luma, GrayImage, RgbaImage};

pub use crate::histogram::otsu_threshold;

verus! {

/// Red, green and blue.
pub type Rgb = (u8, u8, u8);

/// A rectangle of a page that holds text.
#[derive(Clone, Copy, Debug, PartialEq, Eq, Structural)]
pub struct TextRegion {
    pub x: u32,
    pub y: u32,
    pub width: u32,
    pub height: u32,
}

/// A rectangle of pixels, without its right and bottom ends.
#[derive(Clone, Copy, Debug, PartialEq, Eq, Structural)]
pub struct Span {
    pub x0: u32,
    pub y0: u32,
    pub x1: u32,
    pub y1: u32,
}

impl Span {
    pub open spec fn holds(self, x: int, y: int) -> bool {
        self.x0 <= x < self.x1 && self.y0 <= y < self.y1
    }

    pub open spec fn is_empty(self) -> bool {
        self.x1 <= self.x0 || self.y1 <= self.y0
    }
}

/// The part of a region that lies on a page of `w` by `h` pixels. A region that starts
/// beyond the page starts at its last row or column.
pub open spec fn clipped(r: TextRegion, w: u32, h: u32) -> Span {
    let last_x = if w == 0 { 0u32 } else { (w - 1) as u32 };
    let last_y = if h == 0 { 0u32 } else { (h - 1) as u32 };
    Span {
        x0: if r.x < last_x { r.x } else { last_x },
        y0: if r.y < last_y { r.y } else { last_y },
        x1: if r.x + r.width < w { (r.x + r.width) as u32 } else { w },
        y1: if r.y + r.height < h { (r.y + r.height) as u32 } else { h },
    }
}

fn clip(r: TextRegion, w: u32, h: u32) -> (s: Span)
    requires
        r.x + r.width <= u32::MAX,
        r.y + r.height <= u32::MAX,
    ensures
        s == clipped(r, w, h),
{
    let last_x: u32 = if w == 0 {
        0
    } else {
        w - 1
    };
    let last_y: u32 = if h == 0 {
        0
    } else {
        h - 1
    };
    let rx: u32 = r.x + r.width;
    let ry: u32 = r.y + r.height;
    Span {
        x0: if r.x < last_x {
            r.x
        } else {
            last_x
        },
        y0: if r.y < last_y {
            r.y
        } else {
            last_y
        },
        x1: if rx < w {
            rx
        } else {
            w
        },
        y1: if ry < h {
            ry
        } else {
            h
        },
    }
}

// --- Text colour ---

/// Whether pixel `i` belongs to the text: on the dark side of the threshold, or on the
/// light side.
pub open spec fn text_pixel(gray: Seq<u8>, thr: int, dark: bool) -> spec_fn(int) -> bool {
    |i: int| (gray[i] <= thr) == dark
}

/// Channel `c` of pixel `i`, if it belongs to the text.
pub open spec fn text_channel(gray: Seq<u8>, rgba: Seq<u8>, thr: int, dark: bool, c: int) -> spec_fn(
    int,
) -> int {
    |i: int|
        if (gray[i] <= thr) == dark {
            rgba[i * 4 + c] as int
        } else {
            0
        }
}

/// `color` is the mean colour of the text in a region with luminance `gray` and colours
/// `rgba`. Otsu's threshold parts dark from light; the text is the dark side unless that
/// side has more than half of the pixels. Black if there is no text.
pub open spec fn is_text_color(gray: Seq<u8>, rgba: Seq<u8>, color: Rgb) -> bool {
    exists|hist: Seq<u32>, thr: int| #[trigger]
        is_histogram(hist, gray) && #[trigger] is_otsu(hist, thr) && {
            let n = gray.len() as int;
            let dark = count_at_most(gray, thr) <= n / 2;
            let cnt = tally(text_pixel(gray, thr, dark), n);
            if cnt == 0 {
                color == (0u8, 0u8, 0u8)
            } else {
                &&& color.0 == total(text_channel(gray, rgba, thr, dark, 0), n) / cnt
                &&& color.1 == total(text_channel(gray, rgba, thr, dark, 1), n) / cnt
                &&& color.2 == total(text_channel(gray, rgba, thr, dark, 2), n) / cnt
            }
        }
}

/// The mean colour of the text in a region.
pub fn mean_text_color(gray: &Vec<u8>, rgba: &Vec<u8>) -> (color: Rgb)
    requires
        gray@.len() <= u32::MAX,
        rgba@.len() == gray@.len() * 4,
    ensures
        is_text_color(gray@, rgba@, color),
{
    let hist: Vec<u32> = histogram(gray.as_slice());
    let n: usize = gray.len();
    let len4: usize = rgba.len();
    proof {
        lemma_weight_all(hist@, gray@);
    }
    let thr: u8 = otsu_from_hist(&hist, n);
    assert(is_histogram(hist@, gray@) && is_otsu(hist@, thr as int));
    let mut dark_count: usize = 0;
    for i in 0..n
        invariant
            n == gray@.len(),
            dark_count == tally(at_most(gray@, thr as int), i as int),
            dark_count <= i,
    {
        if gray[i] <= thr {
            dark_count = dark_count + 1;
        }
    }
    let dark: bool = dark_count <= n / 2;
    let mut rs: u64 = 0;
    let mut gs: u64 = 0;
    let mut bs: u64 = 0;
    let mut cnt: u64 = 0;
    let ghost g = gray@;
    let ghost c = rgba@;
    for i in 0..n
        invariant
            n == gray@.len(),
            n <= u32::MAX,
            len4 == n * 4,
            len4 == rgba@.len(),
            g == gray@,
            c == rgba@,
            cnt == tally(text_pixel(g, thr as int, dark), i as int),
            rs == total(text_channel(g, c, thr as int, dark, 0), i as int),
            gs == total(text_channel(g, c, thr as int, dark, 1), i as int),
            bs == total(text_channel(g, c, thr as int, dark, 2), i as int),
            cnt <= i,
            rs <= cnt * 255,
            gs <= cnt * 255,
            bs <= cnt * 255,
    {
        if (gray[i] <= thr) == dark {
            rs = rs + rgba[i * 4] as u64;
            gs = gs + rgba[i * 4 + 1] as u64;
            bs = bs + rgba[i * 4 + 2] as u64;
            cnt = cnt + 1;
        }
    }
    if cnt == 0 {
        return (0, 0, 0);
    }
    assert(rs / cnt <= 255 && gs / cnt <= 255 && bs / cnt <= 255) by (nonlinear_arith)
        requires
            cnt > 0,
            rs <= cnt * 255,
            gs <= cnt * 255,
            bs <= cnt * 255,
    ;
    ((rs / cnt) as u8, (gs / cnt) as u8, (bs / cnt) as u8)
}

/// The pixels of `img` inside `s`, row by row.
pub open spec fn gray_inside(img: GrayImage, s: Span) -> Seq<u8> {
    let w = s.x1 - s.x0;
    let h = s.y1 - s.y0;
    Seq::new((w * h) as nat, |k: int| img.px(s.x0 + k % w, s.y0 + k / w))
}

/// The channels of the pixels of `img` inside `s`, row by row.
pub open spec fn rgba_inside(img: RgbaImage, s: Span) -> Seq<u8> {
    let w = s.x1 - s.x0;
    let h = s.y1 - s.y0;
    Seq::new(
        (w * h * 4) as nat,
        |k: int| img.channel(s.x0 + (k / 4) % w, s.y0 + (k / 4) / w, k % 4),
    )
}

/// `s` lies on a page of `w` by `h` pixels.
pub open spec fn fits(s: Span, w: u32, h: u32) -> bool {
    s.x0 < s.x1 <= w && s.y0 < s.y1 <= h
}

fn take_gray(img: &GrayImage, s: Span) -> (v: Vec<u8>)
    requires
        img.wf(),
        fits(s, img.width, img.height),
    ensures
        v@ == gray_inside(*img, s),
        v@.len() == (s.x1 - s.x0) * (s.y1 - s.y0),
{
    let total: usize = img.data.len();
    let w: usize = (s.x1 - s.x0) as usize;
    let h: usize = (s.y1 - s.y0) as usize;
    assert(0 <= w * h <= img.width * img.height) by (nonlinear_arith)
        requires
            0 <= w <= img.width,
            0 <= h <= img.height,
    ;
    let n: usize = w * h;
    let mut v: Vec<u8> = Vec::new();
    for k in 0..n
        invariant
            img.wf(),
            fits(s, img.width, img.height),
            w == s.x1 - s.x0,
            h == s.y1 - s.y0,
            n == w * h,
            v@.len() == k,
            forall|j: int|
                0 <= j < k ==> #[trigger] v@[j] == img.px(
                    s.x0 + j % (w as int),
                    s.y0 + j / (w as int),
                ),
    {
        proof {
            lemma_cell(w as int, h as int, k as int);
        }
        v.push(img.get(s.x0 + (k % w) as u32, s.y0 + (k / w) as u32));
    }
    assert(v@ =~= gray_inside(*img, s));
    v
}

fn take_rgba(img: &RgbaImage, s: Span) -> (v: Vec<u8>)
    requires
        img.wf(),
        fits(s, img.width, img.height),
    ensures
        v@ == rgba_inside(*img, s),
        v@.len() == (s.x1 - s.x0) * (s.y1 - s.y0) * 4,
{
    let total: usize = img.data.len();
    let iw: usize = img.width as usize;
    let w: usize = (s.x1 - s.x0) as usize;
    let h: usize = (s.y1 - s.y0) as usize;
    assert(0 <= w * h <= img.width * img.height) by (nonlinear_arith)
        requires
            0 <= w <= img.width,
            0 <= h <= img.height,
    ;
    let n: usize = w * h * 4;
    let mut v: Vec<u8> = Vec::new();
    for k in 0..n
        invariant
            img.wf(),
            total == img.data@.len(),
            iw == img.width,
            fits(s, img.width, img.height),
            w == s.x1 - s.x0,
            h == s.y1 - s.y0,
            n == w * h * 4,
            w * h <= img.width * img.height,
            v@.len() == k,
            forall|j: int|
                0 <= j < k ==> #[trigger] v@[j] == img.channel(
                    s.x0 + (j / 4) % (w as int),
                    s.y0 + (j / 4) / (w as int),
                    j % 4,
                ),
    {
        let cell: usize = k / 4;
        proof {
            lemma_cell(w as int, h as int, cell as int);
            lemma_flat(
                iw as int,
                img.height as int,
                s.x0 + cell as int % (w as int),
                s.y0 + cell as int / (w as int),
            );
        }
        let x: usize = s.x0 as usize + cell % w;
        let y: usize = s.y0 as usize + cell / w;
        v.push(img.data[(y * iw + x) * 4 + k % 4]);
    }
    assert(v@ =~= rgba_inside(*img, s));
    v
}

/// The mean colour of the text in a region, given the luminance and the colours of the
/// whole page; black for a region that holds no pixel.
pub fn detect_text_color_from_buffers(gray: &GrayImage, rgba: &RgbaImage, region: &TextRegion) -> (
    color: Rgb)
    requires
        gray.wf(),
        rgba.wf(),
        rgba.width == gray.width,
        rgba.height == gray.height,
        gray.data@.len() <= u32::MAX,
        region.x + region.width <= u32::MAX,
        region.y + region.height <= u32::MAX,
    ensures
        ({
            let s = clipped(*region, gray.width, gray.height);
            if s.is_empty() {
                color == (0u8, 0u8, 0u8)
            } else {
                is_text_color(gray_inside(*gray, s), rgba_inside(*rgba, s), color)
            }
        }),
{
    let s: Span = clip(*region, gray.width, gray.height);
    if s.x1 <= s.x0 || s.y1 <= s.y0 {
        return (0, 0, 0);
    }
    assert((s.x1 - s.x0) * (s.y1 - s.y0) <= gray.width * gray.height) by (nonlinear_arith)
        requires
            0 <= s.x1 - s.x0 <= gray.width,
            0 <= s.y1 - s.y0 <= gray.height,
    ;
    let g: Vec<u8> = take_gray(gray, s);
    let c: Vec<u8> = take_rgba(rgba, s);
    mean_text_color(&g, &c)
}

/// A page image in the form in which it was loaded.
pub enum PageImage {
    /// Shades of gray.
    Luma(GrayImage),
    /// Colours with alpha.
    Rgba(RgbaImage),
    /// Any other form, converted both ways.
    Converted { gray: GrayImage, rgba: RgbaImage },
}

impl PageImage {
    pub open spec fn width(&self) -> u32 {
        match self {
            PageImage::Luma(g) => g.width,
            PageImage::Rgba(c) => c.width,
            PageImage::Converted { gray, .. } => gray.width,
        }
    }

    pub open spec fn height(&self) -> u32 {
        match self {
            PageImage::Luma(g) => g.height,
            PageImage::Rgba(c) => c.height,
            PageImage::Converted { gray, .. } => gray.height,
        }
    }

    pub open spec fn wf(&self) -> bool {
        match self {
            PageImage::Luma(g) => g.wf(),
            PageImage::Rgba(c) => c.wf(),
            PageImage::Converted { gray, rgba } => {
                gray.wf() && rgba.wf() && gray.width == rgba.width && gray.height == rgba.height
            },
        }
    }

    /// The luminance inside a span.
    pub open spec fn gray_in(&self, s: Span) -> Seq<u8> {
        match self {
            PageImage::Luma(g) => gray_inside(*g, s),
            PageImage::Rgba(c) => luma_of_cells(rgba_inside(*c, s)),
            PageImage::Converted { gray, .. } => gray_inside(*gray, s),
        }
    }

    /// The colours inside a span.
    pub open spec fn rgba_in(&self, s: Span) -> Seq<u8> {
        match self {
            PageImage::Luma(g) => gray_as_rgba(gray_inside(*g, s)),
            PageImage::Rgba(c) => rgba_inside(*c, s),
            PageImage::Converted { rgba, .. } => rgba_inside(*rgba, s),
        }
    }
}

/// The luminance of each pixel of an RGBA buffer.
pub open spec fn luma_of_cells(data: Seq<u8>) -> Seq<u8> {
    Seq::new(
        (data.len() / 4) as nat,
        |i: int| luma(data[i * 4], data[i * 4 + 1], data[i * 4 + 2]) as u8,
    )
}

/// Shades of gray as opaque colours.
pub open spec fn gray_as_rgba(gray: Seq<u8>) -> Seq<u8> {
    Seq::new(
        gray.len() * 4,
        |k: int|
            if k % 4 == 3 {
                255u8
            } else {
                gray[k / 4]
            },
    )
}

/// The mean colour of the text in a region of a page; black for a region that holds no
/// pixel.
pub fn detect_text_color(page: &PageImage, region: &TextRegion) -> (color: Rgb)
    requires
        page.wf(),
        page.width() * page.height() <= u32::MAX,
        page.width() * page.height() * 4 <= usize::MAX,
        region.x + region.width <= u32::MAX,
        region.y + region.height <= u32::MAX,
    ensures
        ({
            let s = clipped(*region, page.width(), page.height());
            if s.is_empty() {
                color == (0u8, 0u8, 0u8)
            } else {
                is_text_color(page.gray_in(s), page.rgba_in(s), color)
            }
        }),
{
    match page {
        PageImage::Converted { gray, rgba } => detect_text_color_from_buffers(gray, rgba, region),
        PageImage::Luma(g) => {
            let s: Span = clip(*region, g.width, g.height);
            if s.x1 <= s.x0 || s.y1 <= s.y0 {
                return (0, 0, 0);
            }
            assert((s.x1 - s.x0) * (s.y1 - s.y0) <= g.width * g.height) by (nonlinear_arith)
                requires
                    0 <= s.x1 - s.x0 <= g.width,
                    0 <= s.y1 - s.y0 <= g.height,
            ;
            let gray: Vec<u8> = take_gray(g, s);
            let n: usize = gray.len();
            let mut rgba: Vec<u8> = Vec::new();
            for k in 0..(n * 4)
                invariant
                    n == gray@.len(),
                    n * 4 <= usize::MAX,
                    rgba@.len() == k,
                    forall|j: int|
                        0 <= j < k ==> #[trigger] rgba@[j] == if j % 4 == 3 {
                            255u8
                        } else {
                            gray@[j / 4]
                        },
            {
                rgba.push(
                    if k % 4 == 3 {
                        255
                    } else {
                        gray[k / 4]
                    },
                );
            }
            assert(rgba@ =~= gray_as_rgba(gray@));
            mean_text_color(&gray, &rgba)
        },
        PageImage::Rgba(c) => {
            let s: Span = clip(*region, c.width, c.height);
            if s.x1 <= s.x0 || s.y1 <= s.y0 {
                return (0, 0, 0);
            }
            assert((s.x1 - s.x0) * (s.y1 - s.y0) <= c.width * c.height) by (nonlinear_arith)
                requires
                    0 <= s.x1 - s.x0 <= c.width,
                    0 <= s.y1 - s.y0 <= c.height,
            ;
            let data: Vec<u8> = take_rgba(c, s);
            let sub = RgbaImage { width: s.x1 - s.x0, height: s.y1 - s.y0, data };
            let gray: GrayImage = grayscale(&sub);
            assert(gray.data@ =~= luma_of_cells(sub.data@));
            mean_text_color(&gray.data, &sub.data)
        },
    }
}

// --- Background colour ---

/// The width of the frame whose pixels make up the background colour.
pub open spec fn frame_margin(w: int, h: int) -> int {
    let a = smaller_of(smaller_of(5, w / 4), h / 4);
    if a < 1 {
        1
    } else {
        a
    }
}

pub open spec fn smaller_of(a: int, b: int) -> int {
    if a < b {
        a
    } else {
        b
    }
}

/// Pixel `i` lies in the frame along the border.
pub open spec fn in_frame(w: int, h: int) -> spec_fn(int) -> bool {
    |i: int|
        {
            let m = frame_margin(w, h);
            let x = i % w;
            let y = i / w;
            x < m || x >= w - m || y < m || y >= h - m
        }
}

/// Channel `c` of pixel `i`, if it lies in the frame.
pub open spec fn frame_channel(data: Seq<u8>, w: int, h: int, c: int) -> spec_fn(int) -> int {
    |i: int|
        if in_frame(w, h)(i) {
            data[i * 4 + c] as int
        } else {
            0
        }
}

/// The mean of the pixels in a frame along the border; white for an empty image.
pub open spec fn is_background(data: Seq<u8>, w: int, h: int, color: Rgb) -> bool {
    let n = w * h;
    if n == 0 {
        color == (255u8, 255u8, 255u8)
    } else {
        let cnt = tally(in_frame(w, h), n);
        &&& cnt > 0
        &&& color.0 == total(frame_channel(data, w, h, 0), n) / cnt
        &&& color.1 == total(frame_channel(data, w, h, 1), n) / cnt
        &&& color.2 == total(frame_channel(data, w, h, 2), n) / cnt
    }
}

/// The dominant background colour: the mean of the pixels in a frame along the border;
/// white for an empty image.
pub fn detect_background_color_from_buffer(rgba: &RgbaImage) -> (color: Rgb)
    requires
        rgba.wf(),
    ensures
        is_background(rgba.data@, rgba.width as int, rgba.height as int, color),
{
    let len4: usize = rgba.data.len();
    let wu: u32 = rgba.width;
    let hu: u32 = rgba.height;
    if wu == 0 || hu == 0 {
        assert(wu * hu == 0) by (nonlinear_arith)
            requires
                wu == 0 || hu == 0,
        ;
        return (255, 255, 255);
    }
    assert(wu * hu > 0) by (nonlinear_arith)
        requires
            wu > 0,
            hu > 0,
    ;
    let w: usize = wu as usize;
    let h: usize = hu as usize;
    let a: usize = if w / 4 < 5 {
        w / 4
    } else {
        5
    };
    let b: usize = if h / 4 < a {
        h / 4
    } else {
        a
    };
    let m: usize = if b < 1 {
        1
    } else {
        b
    };
    let n: usize = w * h;
    let ghost data = rgba.data@;
    let mut rs: u128 = 0;
    let mut gs: u128 = 0;
    let mut bs: u128 = 0;
    let mut cnt: u128 = 0;
    for i in 0..n
        invariant
            rgba.wf(),
            data == rgba.data@,
            len4 == data.len(),
            w == rgba.width,
            h == rgba.height,
            w > 0,
            h > 0,
            n == w * h,
            m == frame_margin(w as int, h as int),
            cnt == tally(in_frame(w as int, h as int), i as int),
            rs == total(frame_channel(data, w as int, h as int, 0), i as int),
            gs == total(frame_channel(data, w as int, h as int, 1), i as int),
            bs == total(frame_channel(data, w as int, h as int, 2), i as int),
            cnt <= i,
            i > 0 ==> cnt > 0,
            rs <= cnt * 255,
            gs <= cnt * 255,
            bs <= cnt * 255,
    {
        proof {
            lemma_cell(w as int, h as int, i as int);
        }
        let x: usize = i % w;
        let y: usize = i / w;
        let framed: bool = x < m || x >= w - m || y < m || y >= h - m;
        assert(framed == in_frame(w as int, h as int)(i as int));
        if framed {
            cnt = cnt + 1;
            rs = rs + rgba.data[i * 4] as u128;
            gs = gs + rgba.data[i * 4 + 1] as u128;
            bs = bs + rgba.data[i * 4 + 2] as u128;
        }
        if i == 0 {
            assert(0int / (w as int) == 0) by {
                vstd::arithmetic::div_mod::lemma_div_basics(w as int);
            }
        }
    }
    assert(rs / cnt <= 255 && gs / cnt <= 255 && bs / cnt <= 255) by (nonlinear_arith)
        requires
            cnt > 0,
            rs <= cnt * 255,
            gs <= cnt * 255,
            bs <= cnt * 255,
    ;
    ((rs / cnt) as u8, (gs / cnt) as u8, (bs / cnt) as u8)
}

/// Shades of gray as opaque colours.
fn opaque_gray(g: &GrayImage) -> (c: RgbaImage)
    requires
        g.wf(),
        g.data@.len() * 4 <= usize::MAX,
    ensures
        c.wf(),
        c.width == g.width,
        c.height == g.height,
        c.data@ == gray_as_rgba(g.data@),
{
    let n: usize = g.data.len();
    let mut data: Vec<u8> = Vec::new();
    for k in 0..(n * 4)
        invariant
            n == g.data@.len(),
            n * 4 <= usize::MAX,
            data@.len() == k,
            forall|j: int| 0 <= j < k ==> #[trigger] data@[j] == gray_as_rgba(g.data@)[j],
    {
        data.push(
            if k % 4 == 3 {
                255
            } else {
                g.data[k / 4]
            },
        );
    }
    assert(data@ =~= gray_as_rgba(g.data@));
    RgbaImage { width: g.width, height: g.height, data }
}

fn copy_rgba(c: &RgbaImage) -> (r: RgbaImage)
    requires
        c.wf(),
    ensures
        r.wf(),
        r.width == c.width,
        r.height == c.height,
        r.data@ == c.data@,
{
    let n: usize = c.data.len();
    let mut data: Vec<u8> = Vec::new();
    for k in 0..n
        invariant
            n == c.data@.len(),
            data@.len() == k,
            forall|j: int| 0 <= j < k ==> #[trigger] data@[j] == c.data@[j],
    {
        data.push(c.data[k]);
    }
    assert(data@ =~= c.data@);
    RgbaImage { width: c.width, height: c.height, data }
}

impl PageImage {
    /// The colours of the page.
    pub open spec fn rgba_data(&self) -> Seq<u8> {
        match self {
            PageImage::Luma(g) => gray_as_rgba(g.data@),
            PageImage::Rgba(c) => c.data@,
            PageImage::Converted { rgba, .. } => rgba.data@,
        }
    }

    /// The page in colours.
    pub fn to_rgba(&self) -> (r: RgbaImage)
        requires
            self.wf(),
            self.width() * self.height() * 4 <= usize::MAX,
        ensures
            r.wf(),
            r.width == self.width(),
            r.height == self.height(),
            r.data@ == self.rgba_data(),
    {
        match self {
            PageImage::Luma(g) => opaque_gray(g),
            PageImage::Rgba(c) => copy_rgba(c),
            PageImage::Converted { rgba, .. } => copy_rgba(rgba),
        }
    }
}

/// The dominant background colour of a page.
pub fn detect_background_color(page: &PageImage) -> (color: Rgb)
    requires
        page.wf(),
        page.width() * page.height() * 4 <= usize::MAX,
    ensures
        is_background(page.rgba_data(), page.width() as int, page.height() as int, color),
{
    detect_background_color_from_buffer(&page.to_rgba())
}

// --- Erasure ---

/// A rectangle to erase: column, row, width and height.
pub type Rect = (u32, u32, u32, u32);

/// The pixels that erasing a rectangle with a margin covers, on a page of `w` by `h` pixels.
pub open spec fn erased(r: Rect, margin: u32, w: u32, h: u32) -> Span {
    let left = if r.0 < margin { 0u32 } else { (r.0 - margin) as u32 };
    let top = if r.1 < margin { 0u32 } else { (r.1 - margin) as u32 };
    Span {
        x0: if left < w { left } else { w },
        y0: if top < h { top } else { h },
        x1: if r.0 + r.2 + margin < w { (r.0 + r.2 + margin) as u32 } else { w },
        y1: if r.1 + r.3 + margin < h { (r.1 + r.3 + margin) as u32 } else { h },
    }
}

/// One of the first `k` rectangles covers the pixel in column `x`, row `y`.
pub open spec fn covered(
    rects: Seq<Rect>,
    k: int,
    margin: u32,
    w: u32,
    h: u32,
    x: int,
    y: int,
) -> bool {
    exists|j: int| 0 <= j < k && erased(#[trigger] rects[j], margin, w, h).holds(x, y)
}

/// Byte `c` of an opaque colour.
pub open spec fn opaque(bg: Rgb, c: int) -> u8 {
    if c == 0 {
        bg.0
    } else if c == 1 {
        bg.1
    } else if c == 2 {
        bg.2
    } else {
        255
    }
}

/// Fills a span with an opaque colour.
fn fill(rgba: &mut RgbaImage, s: Span, bg: Rgb)
    requires
        old(rgba).wf(),
        s.x1 <= old(rgba).width,
        s.y1 <= old(rgba).height,
    ensures
        final(rgba).wf(),
        final(rgba).width == old(rgba).width,
        final(rgba).height == old(rgba).height,
        forall|k: int|
            0 <= k < old(rgba).data@.len() ==> #[trigger] final(rgba).data@[k] == if s.holds(
                (k / 4) % (old(rgba).width as int),
                (k / 4) / (old(rgba).width as int),
            ) {
                opaque(bg, k % 4)
            } else {
                old(rgba).data@[k]
            },
{
    let len4: usize = rgba.data.len();
    let w: usize = rgba.width as usize;
    let ghost h = rgba.height as int;
    let ghost before = rgba.data@;
    let mut py: u32 = s.y0;
    while py < s.y1
        invariant
            rgba.wf(),
            rgba.width == w,
            rgba.height == h,
            len4 == rgba.data@.len(),
            before.len() == len4,
            s.x1 <= w,
            s.y1 <= h,
            s.y0 <= py,
            py <= s.y1 || py == s.y0,
            forall|k: int|
                0 <= k < len4 ==> #[trigger] rgba.data@[k] == if s.x0 <= (k / 4) % (w as int)
                    < s.x1 && s.y0 <= (k / 4) / (w as int) < py {
                    opaque(bg, k % 4)
                } else {
                    before[k]
                },
        decreases s.y1 - py,
    {
        let mut px: u32 = s.x0;
        while px < s.x1
            invariant
                rgba.wf(),
                rgba.width == w,
                rgba.height == h,
                len4 == rgba.data@.len(),
                before.len() == len4,
                s.x1 <= w,
                s.y1 <= h,
                s.y0 <= py < s.y1,
                s.x0 <= px,
                px <= s.x1 || px == s.x0,
                forall|k: int|
                    0 <= k < len4 ==> #[trigger] rgba.data@[k] == if s.x0 <= (k / 4) % (w as int)
                        < s.x1 && s.y0 <= (k / 4) / (w as int) && ((k / 4) / (w as int) < py || (
                    (k / 4) / (w as int) == py && (k / 4) % (w as int) < px)) {
                        opaque(bg, k % 4)
                    } else {
                        before[k]
                    },
            decreases s.x1 - px,
        {
            proof {
                lemma_flat(w as int, h, px as int, py as int);
            }
            let at: usize = (py as usize * w + px as usize) * 4;
            let ghost cell = py * w + px;
            rgba.data.set(at, bg.0);
            rgba.data.set(at + 1, bg.1);
            rgba.data.set(at + 2, bg.2);
            rgba.data.set(at + 3, 255);
            proof {
                assert forall|k: int| 0 <= k < len4 implies #[trigger] rgba.data@[k] == if s.x0 <= (
                k / 4) % (w as int) < s.x1 && s.y0 <= (k / 4) / (w as int) && ((k / 4) / (w as int)
                    < py || ((k / 4) / (w as int) == py && (k / 4) % (w as int) < px + 1)) {
                    opaque(bg, k % 4)
                } else {
                    before[k]
                } by {
                    lemma_cell(w as int, h, k / 4);
                    if k / 4 == cell {
                        assert(k == cell * 4 + k % 4);
                    } else {
                        assert(!((k / 4) / (w as int) == py && (k / 4) % (w as int) == px)) by {
                            if (k / 4) / (w as int) == py && (k / 4) % (w as int) == px {
                                assert(k / 4 == py * w + px);
                            }
                        }
                    }
                }
            }
            px = px + 1;
        }
        proof {
            assert forall|k: int| 0 <= k < len4 implies #[trigger] rgba.data@[k] == if s.x0 <= (k
                / 4) % (w as int) < s.x1 && s.y0 <= (k / 4) / (w as int) < py + 1 {
                opaque(bg, k % 4)
            } else {
                before[k]
            } by {}
        }
        py = py + 1;
    }
}

/// `after` is a page with the rectangles, each widened by a margin, painted over.
pub open spec fn is_erased(
    before: Seq<u8>,
    w: u32,
    h: u32,
    rects: Seq<Rect>,
    bg: Rgb,
    margin: u32,
    after: Seq<u8>,
) -> bool {
    &&& after.len() == before.len()
    &&& forall|k: int|
        0 <= k < before.len() ==> #[trigger] after[k] == if covered(
            rects,
            rects.len() as int,
            margin,
            w,
            h,
            (k / 4) % (w as int),
            (k / 4) / (w as int),
        ) {
            opaque(bg, k % 4)
        } else {
            before[k]
        }
}

/// Paints over rectangles, each widened by a margin, with the background colour. What no
/// rectangle covers is left as it was.
pub fn erase_regions_inplace(rgba: &mut RgbaImage, rects: &[Rect], bg: Rgb, margin: u32)
    requires
        old(rgba).wf(),
        forall|j: int|
            0 <= j < rects@.len() ==> (#[trigger] rects@[j]).0 + rects@[j].2 + margin <= u32::MAX
                && rects@[j].1 + rects@[j].3 + margin <= u32::MAX,
    ensures
        final(rgba).wf(),
        final(rgba).width == old(rgba).width,
        final(rgba).height == old(rgba).height,
        is_erased(
            old(rgba).data@,
            old(rgba).width,
            old(rgba).height,
            rects@,
            bg,
            margin,
            final(rgba).data@,
        ),
{
    let w: u32 = rgba.width;
    let h: u32 = rgba.height;
    let ghost before = rgba.data@;
    let n: usize = rects.len();
    for j in 0..n
        invariant
            n == rects@.len(),
            rgba.wf(),
            rgba.width == w,
            rgba.height == h,
            before.len() == rgba.data@.len(),
            forall|j: int|
                0 <= j < rects@.len() ==> (#[trigger] rects@[j]).0 + rects@[j].2 + margin
                    <= u32::MAX && rects@[j].1 + rects@[j].3 + margin <= u32::MAX,
            forall|k: int|
                0 <= k < before.len() ==> #[trigger] rgba.data@[k] == if covered(
                    rects@,
                    j as int,
                    margin,
                    w,
                    h,
                    (k / 4) % (w as int),
                    (k / 4) / (w as int),
                ) {
                    opaque(bg, k % 4)
                } else {
                    before[k]
                },
    {
        let (rx, ry, rw, rh) = rects[j];
        assert(rects@[j as int].0 + rects@[j as int].2 + margin <= u32::MAX);
        let left: u32 = rx.saturating_sub(margin);
        let top: u32 = ry.saturating_sub(margin);
        let right: u32 = rx + rw + margin;
        let bottom: u32 = ry + rh + margin;
        let s = Span {
            x0: if left < w {
                left
            } else {
                w
            },
            y0: if top < h {
                top
            } else {
                h
            },
            x1: if right < w {
                right
            } else {
                w
            },
            y1: if bottom < h {
                bottom
            } else {
                h
            },
        };
        assert(s == erased(rects@[j as int], margin, w, h));
        let ghost mid = rgba.data@;
        fill(rgba, s, bg);
        proof {
            assert forall|k: int| 0 <= k < before.len() implies #[trigger] rgba.data@[k]
                == if covered(
                rects@,
                j + 1,
                margin,
                w,
                h,
                (k / 4) % (w as int),
                (k / 4) / (w as int),
            ) {
                opaque(bg, k % 4)
            } else {
                before[k]
            } by {
                let x = (k / 4) % (w as int);
                let y = (k / 4) / (w as int);
                if s.holds(x, y) {
                    assert(erased(rects@[j as int], margin, w, h).holds(x, y));
                } else {
                    assert(covered(rects@, j + 1, margin, w, h, x, y) == covered(
                        rects@,
                        j as int,
                        margin,
                        w,
                        h,
                        x,
                        y,
                    )) by {
                        if covered(rects@, j + 1, margin, w, h, x, y) {
                            let i = choose|i: int|
                                0 <= i < j + 1 && erased(#[trigger] rects@[i], margin, w, h).holds(
                                    x,
                                    y,
                                );
                            assert(i < j);
                        }
                        if covered(rects@, j as int, margin, w, h, x, y) {
                            let i = choose|i: int|
                                0 <= i < j && erased(#[trigger] rects@[i], margin, w, h).holds(
                                    x,
                                    y,
                                );
                            assert(erased(rects@[i], margin, w, h).holds(x, y));
                        }
                    }
                }
            }
        }
    }
}

/// Paints over rectangles of a page, each widened by a margin, with the background colour.
pub fn erase_regions(page: &PageImage, rects: &[Rect], bg: Rgb, margin: u32) -> (r: RgbaImage)
    requires
        page.wf(),
        page.width() * page.height() * 4 <= usize::MAX,
        forall|j: int|
            0 <= j < rects@.len() ==> (#[trigger] rects@[j]).0 + rects@[j].2 + margin <= u32::MAX
                && rects@[j].1 + rects@[j].3 + margin <= u32::MAX,
    ensures
        r.wf(),
        r.width == page.width(),
        r.height == page.height(),
        is_erased(page.rgba_data(), page.width(), page.height(), rects@, bg, margin, r.data@),
{
    let mut rgba: RgbaImage = page.to_rgba();
    erase_regions_inplace(&mut rgba, rects, bg, margin);
    rgba
}

/// A pixel of the page is painted with the opaque background colour exactly if, for some
/// rectangle, its column lies from the rectangle's left edge less the margin up to the right
/// edge plus the margin, and its row likewise between top and bottom. All four bytes of every
/// other pixel stay.
pub proof fn law_erased_exactly(
    before: Seq<u8>,
    w: u32,
    h: u32,
    rects: Seq<Rect>,
    bg: Rgb,
    margin: u32,
    after: Seq<u8>,
    x: int,
    y: int,
)
    requires
        before.len() == w * h * 4,
        is_erased(before, w, h, rects, bg, margin, after),
        0 <= x < w,
        0 <= y < h,
    ensures
        after.len() == before.len(),
        (exists|j: int|
            0 <= j < rects.len() && (#[trigger] rects[j]).0 - margin <= x < rects[j].0 + rects[j].2
                + margin && rects[j].1 - margin <= y < rects[j].1 + rects[j].3 + margin) ==> {
            &&& after[4 * (y * w + x)] == bg.0
            &&& after[4 * (y * w + x) + 1] == bg.1
            &&& after[4 * (y * w + x) + 2] == bg.2
            &&& after[4 * (y * w + x) + 3] == 255
        },
        !(exists|j: int|
            0 <= j < rects.len() && (#[trigger] rects[j]).0 - margin <= x < rects[j].0 + rects[j].2
                + margin && rects[j].1 - margin <= y < rects[j].1 + rects[j].3 + margin) ==> {
            &&& after[4 * (y * w + x)] == before[4 * (y * w + x)]
            &&& after[4 * (y * w + x) + 1] == before[4 * (y * w + x) + 1]
            &&& after[4 * (y * w + x) + 2] == before[4 * (y * w + x) + 2]
            &&& after[4 * (y * w + x) + 3] == before[4 * (y * w + x) + 3]
        },
{
    let cell = y * w + x;
    lemma_flat(w as int, h as int, x, y);
    assert forall|c: int| 0 <= c < 4 implies (4 * cell + c) / 4 == cell && (4 * cell + c) % 4 == c
        && #[trigger] after[4 * cell + c] == if covered(
        rects,
        rects.len() as int,
        margin,
        w,
        h,
        x,
        y,
    ) {
        opaque(bg, c)
    } else {
        before[4 * cell + c]
    } by {
        let k = 4 * cell + c;
        assert(k / 4 == cell && k % 4 == c);
        assert(0 <= k < before.len());
    }
    assert(after[4 * cell + 0] == after[4 * cell]);
    let r = rects.len() as int;
    if exists|j: int|
        0 <= j < rects.len() && (#[trigger] rects[j]).0 - margin <= x < rects[j].0 + rects[j].2
            + margin && rects[j].1 - margin <= y < rects[j].1 + rects[j].3 + margin {
        let j = choose|j: int|
            0 <= j < rects.len() && (#[trigger] rects[j]).0 - margin <= x < rects[j].0 + rects[j].2
                + margin && rects[j].1 - margin <= y < rects[j].1 + rects[j].3 + margin;
        assert(erased(rects[j], margin, w, h).holds(x, y));
        assert(covered(rects, r, margin, w, h, x, y));
    } else if covered(rects, r, margin, w, h, x, y) {
        let j = choose|j: int|
            0 <= j < r && erased(#[trigger] rects[j], margin, w, h).holds(x, y);
        assert(rects[j].0 - margin <= x < rects[j].0 + rects[j].2 + margin && rects[j].1 - margin
            <= y < rects[j].1 + rects[j].3 + margin);
    }
}

/// Painting over rectangles a second time changes nothing.
pub proof fn law_erase_idempotent(
    before: Seq<u8>,
    w: u32,
    h: u32,
    rects: Seq<Rect>,
    bg: Rgb,
    margin: u32,
    once: Seq<u8>,
    twice: Seq<u8>,
)
    requires
        is_erased(before, w, h, rects, bg, margin, once),
        is_erased(once, w, h, rects, bg, margin, twice),
    ensures
        twice == once,
{
    assert(twice =~= once);
}

// --- Content ---

pub open spec fn value(vals: Seq<u8>) -> spec_fn(int) -> int {
    |i: int| vals[i] as int
}

pub open spec fn square(vals: Seq<u8>) -> spec_fn(int) -> int {
    |i: int| vals[i] * vals[i]
}

/// The variance of the values exceeds `limit`.
pub open spec fn varies_more_than(vals: Seq<u8>, limit: int) -> bool {
    let n = vals.len() as int;
    let sum = total(value(vals), n);
    let sum_sq = total(square(vals), n);
    n * sum_sq - sum * sum > limit * n * n
}

/// The part of a rectangle that lies on a page of `w` by `h` pixels.
pub open spec fn on_page(x: u32, y: u32, rw: u32, rh: u32, w: u32, h: u32) -> Span {
    Span {
        x0: if x < w { x } else { w },
        y0: if y < h { y } else { h },
        x1: if x + rw < w { (x + rw) as u32 } else { w },
        y1: if y + rh < h { (y + rh) as u32 } else { h },
    }
}

/// A region shows more than a uniform background: it has pixels on the page, and the variance
/// of their luminance exceeds one hundred.
pub open spec fn shows_content(gray: GrayImage, x: u32, y: u32, w: u32, h: u32) -> bool {
    let s = on_page(x, y, w, h, gray.width, gray.height);
    !s.is_empty() && varies_more_than(gray_inside(gray, s), 100)
}

/// Whether a region shows more than a uniform background: whether the variance of its
/// luminance exceeds one hundred. A region off the page shows nothing.
pub fn region_has_content(gray: &GrayImage, x: u32, y: u32, w: u32, h: u32) -> (r: bool)
    requires
        gray.wf(),
        gray.data@.len() * 65025 <= u64::MAX,
        x + w <= u32::MAX,
        y + h <= u32::MAX,
    ensures
        ({
            let s = on_page(x, y, w, h, gray.width, gray.height);
            r == (!s.is_empty() && varies_more_than(gray_inside(*gray, s), 100))
        }),
        r == shows_content(*gray, x, y, w, h),
{
    let iw: u32 = gray.width;
    let ih: u32 = gray.height;
    let s = Span {
        x0: if x < iw {
            x
        } else {
            iw
        },
        y0: if y < ih {
            y
        } else {
            ih
        },
        x1: if x + w < iw {
            x + w
        } else {
            iw
        },
        y1: if y + h < ih {
            y + h
        } else {
            ih
        },
    };
    if s.x1 <= s.x0 || s.y1 <= s.y0 {
        return false;
    }
    let vals: Vec<u8> = take_gray(gray, s);
    let n: usize = vals.len();
    assert(n <= gray.width * gray.height) by (nonlinear_arith)
        requires
            n == (s.x1 - s.x0) * (s.y1 - s.y0),
            0 <= s.x1 - s.x0 <= gray.width,
            0 <= s.y1 - s.y0 <= gray.height,
    ;
    let mut sum: u64 = 0;
    let mut sum_sq: u64 = 0;
    for i in 0..n
        invariant
            n == vals@.len(),
            n * 65025 <= u64::MAX,
            sum == total(value(vals@), i as int),
            sum_sq == total(square(vals@), i as int),
            sum <= i * 255,
            sum_sq <= i * 65025,
    {
        let v: u64 = vals[i] as u64;
        assert(0 <= v * v <= 65025) by (nonlinear_arith)
            requires
                0 <= v <= 255,
        ;
        sum = sum + v;
        sum_sq = sum_sq + v * v;
    }
    let c: u128 = n as u128;
    let a: u128 = sum as u128;
    let q: u128 = sum_sq as u128;
    assert(0 <= c * q <= 0x2_0000_0000_0000 * 0xffff_ffff_ffff_ffff) by (nonlinear_arith)
        requires
            0 <= c <= 0x2_0000_0000_0000,
            0 <= q <= 0xffff_ffff_ffff_ffff,
    ;
    assert(0 <= a * a <= 0x200_0000_0000_0000 * 0x200_0000_0000_0000) by (nonlinear_arith)
        requires
            0 <= a <= 0x200_0000_0000_0000,
    ;
    assert(0 <= 100 * c * c <= 100 * (0x2_0000_0000_0000 * 0x2_0000_0000_0000)) by (nonlinear_arith)
        requires
            0 <= c <= 0x2_0000_0000_0000,
    ;
    assert(0 <= 100 * c);
    c * q > a * a + 100 * c * c
}

// --- What the colours are ---

/// The part of a rectangle on the page holds the pixels of the page from its left edge up to
/// its right one and from its top up to its bottom.
pub proof fn law_on_page(x: u32, y: u32, rw: u32, rh: u32, w: u32, h: u32, px: int, py: int)
    requires
        0 <= px < w,
        0 <= py < h,
    ensures
        on_page(x, y, rw, rh, w, h).holds(px, py) <==> x <= px < x + rw && y <= py < y + rh,
        on_page(x, y, rw, rh, w, h).is_empty() <==> rw == 0 || rh == 0 || x >= w || y >= h,
{
}

/// The part of a region that is looked at holds, of a region that begins on the page, the
/// pixels from its left edge up to its right one and from its top up to its bottom. One that
/// begins right of the page or below it is looked at in the last column or row.
pub proof fn law_clipped(r: TextRegion, w: u32, h: u32, px: int, py: int)
    requires
        0 <= px < w,
        0 <= py < h,
    ensures
        r.x < w && r.y < h ==> (clipped(r, w, h).holds(px, py) <==> r.x <= px < r.x + r.width && r.y
            <= py < r.y + r.height),
        r.x >= w && r.y < h ==> (clipped(r, w, h).holds(px, py) <==> px == w - 1 && r.y <= py < r.y
            + r.height),
        r.x < w && r.y >= h ==> (clipped(r, w, h).holds(px, py) <==> r.x <= px < r.x + r.width && py
            == h - 1),
        r.x >= w && r.y >= h ==> (clipped(r, w, h).holds(px, py) <==> px == w - 1 && py == h - 1),
        clipped(r, w, h).x1 <= w && clipped(r, w, h).y1 <= h,
{
}

/// What is taken out of a page holds each pixel of the span once, row by row from the top and
/// from left to right, with all its channels.
pub proof fn law_taken_out(gray: GrayImage, rgba: RgbaImage, s: Span, x: int, y: int)
    requires
        s.holds(x, y),
    ensures
        ({
            let w = s.x1 - s.x0;
            let at = (y - s.y0) * w + (x - s.x0);
            &&& gray_inside(gray, s).len() == w * (s.y1 - s.y0)
            &&& rgba_inside(rgba, s).len() == 4 * (w * (s.y1 - s.y0))
            &&& 0 <= at < gray_inside(gray, s).len()
            &&& gray_inside(gray, s)[at] == gray.px(x, y)
            &&& forall|c: int|
                0 <= c < 4 ==> rgba_inside(rgba, s)[#[trigger] (4 * at + c)] == rgba.channel(x, y, c)
        }),
{
    let w = s.x1 - s.x0;
    let h = s.y1 - s.y0;
    let at = (y - s.y0) * w + (x - s.x0);
    lemma_flat(w, h, x - s.x0, y - s.y0);
    assert(w * h * 4 == 4 * (w * h)) by (nonlinear_arith);
    assert forall|c: int| 0 <= c < 4 implies rgba_inside(rgba, s)[#[trigger] (4 * at + c)]
        == rgba.channel(x, y, c) by {
        let k = 4 * at + c;
        assert(k / 4 == at && k % 4 == c);
    }
}

/// Shades of gray become opaque colours with three equal channels, and their luminance is the
/// shade they came from.
pub proof fn law_gray_colours(gray: Seq<u8>, i: int)
    requires
        0 <= i < gray.len(),
    ensures
        gray_as_rgba(gray).len() == 4 * gray.len(),
        gray_as_rgba(gray)[4 * i] == gray[i],
        gray_as_rgba(gray)[4 * i + 1] == gray[i],
        gray_as_rgba(gray)[4 * i + 2] == gray[i],
        gray_as_rgba(gray)[4 * i + 3] == 255,
        luma_of_cells(gray_as_rgba(gray))[i] == gray[i],
{
    assert((4 * i) / 4 == i && (4 * i + 1) / 4 == i && (4 * i + 2) / 4 == i);
    assert((4 * i) % 4 == 0 && (4 * i + 1) % 4 == 1 && (4 * i + 2) % 4 == 2 && (4 * i + 3) % 4
        == 3);
}

/// The text is the darker side of Otsu's threshold, the levels up to it, if that has at most
/// half of the pixels, and else the lighter one. Its colour is, channel by channel, the mean
/// over that side, rounded down, and black where that side is empty.
pub proof fn law_text_color(gray: Seq<u8>, rgba: Seq<u8>, color: Rgb, hist: Seq<u32>, thr: int)
    requires
        is_text_color(gray, rgba, color),
        is_histogram(hist, gray),
        is_otsu(hist, thr),
    ensures
        ({
            let n = gray.len() as int;
            let dark = 2 * tally(|i: int| gray[i] <= thr, n) <= n;
            let cnt = tally(|i: int| dark <==> gray[i] <= thr, n);
            let sum = |c: int|
                total(
                    |i: int|
                        if dark <==> gray[i] <= thr {
                            rgba[4 * i + c] as int
                        } else {
                            0
                        },
                    n,
                );
            &&& cnt == 0 ==> color == (0u8, 0u8, 0u8)
            &&& cnt > 0 ==> {
                &&& cnt * color.0 <= sum(0) < cnt * (color.0 + 1)
                &&& cnt * color.1 <= sum(1) < cnt * (color.1 + 1)
                &&& cnt * color.2 <= sum(2) < cnt * (color.2 + 1)
            }
        }),
{
    let n = gray.len() as int;
    let (hist2, thr2) = choose|hist2: Seq<u32>, thr2: int| #[trigger]
        is_histogram(hist2, gray) && #[trigger] is_otsu(hist2, thr2) && {
            let n = gray.len() as int;
            let dark = count_at_most(gray, thr2) <= n / 2;
            let cnt = tally(text_pixel(gray, thr2, dark), n);
            if cnt == 0 {
                color == (0u8, 0u8, 0u8)
            } else {
                &&& color.0 == total(text_channel(gray, rgba, thr2, dark, 0), n) / cnt
                &&& color.1 == total(text_channel(gray, rgba, thr2, dark, 1), n) / cnt
                &&& color.2 == total(text_channel(gray, rgba, thr2, dark, 2), n) / cnt
            }
        };
    assert(hist2 =~= hist);
    law_otsu_unique(hist, thr, thr2);
    lemma_tally_same(at_most(gray, thr), |i: int| gray[i] <= thr, n);
    let dark = 2 * tally(|i: int| gray[i] <= thr, n) <= n;
    assert(dark == (count_at_most(gray, thr) <= n / 2));
    let side = |i: int| dark <==> gray[i] <= thr;
    lemma_tally_same(text_pixel(gray, thr, dark), side, n);
    lemma_tally_bounds(side, n);
    let cnt = tally(side, n);
    let sum = |c: int|
        total(
            |i: int|
                if dark <==> gray[i] <= thr {
                    rgba[4 * i + c] as int
                } else {
                    0
                },
            n,
        );
    assert forall|c: int| sum(c) == #[trigger] total(text_channel(gray, rgba, thr, dark, c), n) by {
        lemma_total_same(
            |i: int|
                if dark <==> gray[i] <= thr {
                    rgba[4 * i + c] as int
                } else {
                    0
                },
            text_channel(gray, rgba, thr, dark, c),
            n,
        );
    }
    if cnt > 0 {
        lemma_mean(total(text_channel(gray, rgba, thr, dark, 0), n), cnt);
        lemma_mean(total(text_channel(gray, rgba, thr, dark, 1), n), cnt);
        lemma_mean(total(text_channel(gray, rgba, thr, dark, 2), n), cnt);
    }
}

proof fn lemma_mean(sum: int, cnt: int)
    requires
        cnt > 0,
    ensures
        cnt * (sum / cnt) <= sum < cnt * (sum / cnt + 1),
{
    vstd::arithmetic::div_mod::lemma_fundamental_div_mod(sum, cnt);
    vstd::arithmetic::div_mod::lemma_mod_bound(sum, cnt);
    let q = sum / cnt;
    assert(cnt * (q + 1) == cnt * q + cnt) by (nonlinear_arith);
}

/// The background is, channel by channel, the mean over the pixels that are nearer to an edge
/// than the frame is wide, rounded down. The frame is as wide as a quarter of the shorter side,
/// but at least one and at most five pixels. A page without pixels is white.
pub proof fn law_background(data: Seq<u8>, w: int, h: int, color: Rgb, m: int)
    requires
        0 <= w,
        0 <= h,
        is_background(data, w, h, color),
        1 <= m <= 5,
        m == 1 || (4 * m <= w && 4 * m <= h),
        m == 5 || 4 * (m + 1) > w || 4 * (m + 1) > h,
    ensures
        ({
            let cnt = tally(
                |i: int| i % w < m || i % w + m >= w || i / w < m || i / w + m >= h,
                w * h,
            );
            let sum = |c: int|
                total(
                    |i: int|
                        if i % w < m || i % w + m >= w || i / w < m || i / w + m >= h {
                            data[4 * i + c] as int
                        } else {
                            0
                        },
                    w * h,
                );
            &&& w == 0 || h == 0 ==> color == (255u8, 255u8, 255u8)
            &&& w > 0 && h > 0 ==> {
                &&& cnt * color.0 <= sum(0) < cnt * (color.0 + 1)
                &&& cnt * color.1 <= sum(1) < cnt * (color.1 + 1)
                &&& cnt * color.2 <= sum(2) < cnt * (color.2 + 1)
            }
        }),
{
    let n = w * h;
    assert(w == 0 || h == 0 <==> n == 0) by (nonlinear_arith)
        requires
            n == w * h,
            0 <= w,
            0 <= h,
    ;
    assert(frame_margin(w, h) == m);
    let near = |i: int| i % w < m || i % w + m >= w || i / w < m || i / w + m >= h;
    lemma_tally_same(in_frame(w, h), near, n);
    let cnt = tally(near, n);
    let sum = |c: int|
        total(
            |i: int|
                if i % w < m || i % w + m >= w || i / w < m || i / w + m >= h {
                    data[4 * i + c] as int
                } else {
                    0
                },
            n,
        );
    assert forall|c: int| sum(c) == #[trigger] total(frame_channel(data, w, h, c), n) by {
        lemma_total_same(
            |i: int|
                if i % w < m || i % w + m >= w || i / w < m || i / w + m >= h {
                    data[4 * i + c] as int
                } else {
                    0
                },
            frame_channel(data, w, h, c),
            n,
        );
    }
    if n != 0 {
        lemma_mean(total(frame_channel(data, w, h, 0), n), cnt);
        lemma_mean(total(frame_channel(data, w, h, 1), n), cnt);
        lemma_mean(total(frame_channel(data, w, h, 2), n), cnt);
    }
}

/// A region shows content exactly if some of it lies on the page and there the number of
/// pixels times the sum of the squared levels exceeds the squared sum of the levels by more
/// than a hundred times the squared number: the variance is over a hundred. Levels that are
/// all equal show none.
pub proof fn law_content(gray: GrayImage, x: u32, y: u32, w: u32, h: u32)
    ensures
        ({
            let s = on_page(x, y, w, h, gray.width, gray.height);
            let v = gray_inside(gray, s);
            let n = v.len() as int;
            let sum = total(|i: int| v[i] as int, n);
            let squares = total(|i: int| v[i] * v[i], n);
            &&& shows_content(gray, x, y, w, h) <==> w > 0 && h > 0 && x < gray.width && y
                < gray.height && n * squares - sum * sum > 100 * (n * n)
            &&& (forall|i: int| 0 <= i < n ==> #[trigger] v[i] == v[0]) ==> !shows_content(
                gray,
                x,
                y,
                w,
                h,
            )
        }),
{
    let s = on_page(x, y, w, h, gray.width, gray.height);
    let v = gray_inside(gray, s);
    let n = v.len() as int;
    lemma_total_same(|i: int| v[i] as int, value(v), n);
    lemma_total_same(|i: int| v[i] * v[i], square(v), n);
    let sum = total(value(v), n);
    let squares = total(square(v), n);
    assert(100 * n * n == 100 * (n * n)) by (nonlinear_arith);
    if forall|i: int| 0 <= i < n ==> #[trigger] v[i] == v[0] {
        let c = v[0] as int;
        lemma_total_constant(value(v), n, c);
        lemma_total_constant(square(v), n, c * c);
        assert(n * (n * (c * c)) == (n * c) * (n * c)) by (nonlinear_arith);
        assert(0 <= n * n) by (nonlinear_arith);
    }
}

proof fn lemma_total_constant(f: spec_fn(int) -> int, n: int, c: int)
    requires
        0 <= n,
        forall|i: int| 0 <= i < n ==> #[trigger] f(i) == c,
    ensures
        total(f, n) == n * c,
    decreases n,
{
    if n > 0 {
        lemma_total_constant(f, n - 1, c);
        assert(n * c == (n - 1) * c + c) by (nonlinear_arith);
    } else {
        assert(0 * c == 0) by (nonlinear_arith);
    }
}

} // verus!
