//! Finding lines, words and single characters on a page by its ink, and setting images side
//! by side.

use vstd::prelude::*;
use crate::counting::{tally, total};
use crate::glyph::{ceil_div, ink_bounds, is_bounds, is_ink, CellBox, INK_THRESHOLD};
use crate::grid::lemma_cell;
use crate::raster::{in_size, resizable, resize, GrayImage};

verus! {

/// Cells darker than this are ink of a page.
pub const PAGE_INK: u8 = 180;

// --- Profiles ---

/// Cell `x` of row `y` is ink.
pub open spec fn dark_in_row(img: GrayImage, y: int) -> spec_fn(int) -> bool {
    |x: int| img.px(x, y) < PAGE_INK
}

/// Cell `top + k` of column `x` is ink.
pub open spec fn dark_in_column(img: GrayImage, x: int, top: int) -> spec_fn(int) -> bool {
    |k: int| img.px(x, top + k) < PAGE_INK
}

/// How much ink each row has.
pub open spec fn row_profile(img: GrayImage) -> Seq<u32> {
    Seq::new(
        img.height as nat,
        |y: int| tally(dark_in_row(img, y), img.width as int) as u32,
    )
}

/// How much ink each column has between two rows.
pub open spec fn column_profile(img: GrayImage, top: int, bottom: int) -> Seq<u32> {
    Seq::new(
        img.width as nat,
        |x: int| tally(dark_in_column(img, x, top), bottom - top) as u32,
    )
}

/// How much ink each row has.
pub fn row_ink(img: &GrayImage) -> (v: Vec<u32>)
    requires
        img.wf(),
    ensures
        v@ == row_profile(*img),
{
    let mut v: Vec<u32> = Vec::new();
    for y in 0..img.height
        invariant
            img.wf(),
            v@.len() == y,
            forall|k: int| 0 <= k < y ==> #[trigger] v@[k] == row_profile(*img)[k],
    {
        let mut n: u32 = 0;
        for x in 0..img.width
            invariant
                img.wf(),
                y < img.height,
                n == tally(dark_in_row(*img, y as int), x as int),
                n <= x,
        {
            if img.get(x, y) < PAGE_INK {
                n = n + 1;
            }
        }
        v.push(n);
    }
    assert(v@ =~= row_profile(*img));
    v
}

/// How much ink each column has between two rows.
pub fn column_ink(img: &GrayImage, top: u32, bottom: u32) -> (v: Vec<u32>)
    requires
        img.wf(),
        top <= bottom <= img.height,
    ensures
        v@ == column_profile(*img, top as int, bottom as int),
{
    let mut v: Vec<u32> = Vec::new();
    let h: u32 = bottom - top;
    for x in 0..img.width
        invariant
            img.wf(),
            h == bottom - top,
            top <= bottom <= img.height,
            v@.len() == x,
            forall|k: int|
                0 <= k < x ==> #[trigger] v@[k] == column_profile(*img, top as int, bottom as int)[k],
    {
        let mut n: u32 = 0;
        for k in 0..h
            invariant
                img.wf(),
                h == bottom - top,
                top <= bottom <= img.height,
                x < img.width,
                n == tally(dark_in_column(*img, x as int, top as int), k as int),
                n <= k,
        {
            if img.get(x, top + k) < PAGE_INK {
                n = n + 1;
            }
        }
        v.push(n);
    }
    assert(v@ =~= column_profile(*img, top as int, bottom as int));
    v
}

// --- Runs ---

/// From `a` to `b`, without `b`, stand values above `min`, and none before or behind it. What
/// reaches the end of the values is no run.
pub open spec fn is_run(v: Seq<u32>, min: u32, a: int, b: int) -> bool {
    &&& 0 <= a < b < v.len()
    &&& forall|i: int| a <= i < b ==> #[trigger] v[i] > min
    &&& v[b] <= min
    &&& (a == 0 || v[a - 1] <= min)
}

/// Run `(a, b)` is among the runs.
pub open spec fn has_run(r: Seq<(u32, u32)>, a: int, b: int) -> bool {
    exists|k: int| 0 <= k < r.len() && (#[trigger] r[k]).0 == a && r[k].1 == b
}

/// The runs that are at least `least` long and end before `n`, from left to right.
pub open spec fn are_runs(v: Seq<u32>, min: u32, least: int, n: int, r: Seq<(u32, u32)>) -> bool {
    &&& forall|k: int|
        0 <= k < r.len() ==> is_run(v, min, (#[trigger] r[k]).0 as int, r[k].1 as int) && r[k].1
            - r[k].0 >= least && r[k].1 < n
    &&& forall|j: int, k: int| 0 <= j < k < r.len() ==> (#[trigger] r[j]).1 <= (#[trigger] r[k]).0
    &&& forall|a: int, b: int|
        #[trigger] is_run(v, min, a, b) && b - a >= least && b < n ==> has_run(r, a, b)
}

/// Finds the runs of values above `min`.
pub fn ink_runs(v: &Vec<u32>, min: u32, least: u32) -> (r: Vec<(u32, u32)>)
    requires
        v@.len() <= u32::MAX,
    ensures
        are_runs(v@, min, least as int, v@.len() as int, r@),
{
    let n: u32 = v.len() as u32;
    let mut out: Vec<(u32, u32)> = Vec::new();
    let mut start: Option<u32> = None;
    for i in 0..n
        invariant
            n == v@.len(),
            are_runs(v@, min, least as int, i as int, out@),
            match start {
                Some(a) => {
                    &&& a < i
                    &&& forall|k: int| a <= k < i ==> #[trigger] v@[k] > min
                    &&& (a == 0 || v@[a - 1] <= min)
                    &&& forall|k: int| 0 <= k < out@.len() ==> (#[trigger] out@[k]).1 <= a
                },
                None => i == 0 || v@[i - 1] <= min,
            },
    {
        let ghost before = out@;
        if v[i as usize] > min {
            if start.is_none() {
                start = Some(i);
            }
            proof {
                assert forall|a: int, b: int|
                    #[trigger] is_run(v@, min, a, b) && b - a >= least && b < i + 1 implies has_run(
                    out@,
                    a,
                    b,
                ) by {
                    assert(v@[i as int] > min);
                    assert(b != i);
                }
            }
        } else {
            match start {
                Some(a) => {
                    if i - a >= least {
                        out.push((a, i));
                    }
                    start = None;
                    proof {
                        assert(is_run(v@, min, a as int, i as int));
                        assert forall|x: int, b: int|
                            #[trigger] is_run(v@, min, x, b) && b - x >= least && b < i
                                + 1 implies has_run(out@, x, b) by {
                            if b < i {
                                assert(has_run(before, x, b));
                                let k = choose|k: int|
                                    0 <= k < before.len() && (#[trigger] before[k]).0 == x
                                        && before[k].1 == b;
                                assert(out@[k] == before[k]);
                            } else {
                                if x < a {
                                    assert(v@[a - 1] > min);
                                } else if x > a {
                                    assert(v@[x - 1] > min);
                                }
                                assert(x == a);
                                assert(out@[out@.len() - 1] == (a, i));
                            }
                        }
                    }
                },
                None => {
                    proof {
                        assert forall|x: int, b: int|
                            #[trigger] is_run(v@, min, x, b) && b - x >= least && b < i
                                + 1 implies has_run(out@, x, b) by {
                            if b == i {
                                assert(v@[i - 1] > min);
                            }
                        }
                    }
                },
            }
        }
    }
    out
}

proof fn lemma_runs_same(v: Seq<u32>, min: u32, least: int, n: int, p: Seq<(u32, u32)>, q: Seq<(u32, u32)>, k: int)
    requires
        are_runs(v, min, least, n, p),
        are_runs(v, min, least, n, q),
        0 <= k < p.len(),
        k < q.len(),
        forall|j: int| 0 <= j < k ==> p[j] == q[j],
    ensures
        p[k].0 <= q[k].0 ==> p[k] == q[k],
{
    if p[k].0 <= q[k].0 {
        let a = p[k].0 as int;
        let b = p[k].1 as int;
        assert(is_run(v, min, a, b));
        assert(has_run(q, a, b));
        let m = choose|m: int| 0 <= m < q.len() && (#[trigger] q[m]).0 == a && q[m].1 == b;
        if m < k {
            assert(p[m] == q[m]);
            assert(p[m].1 <= p[k].0);
            assert(is_run(v, min, p[m].0 as int, p[m].1 as int));
        } else if m > k {
            assert(q[k].1 <= q[m].0);
            assert(is_run(v, min, q[k].0 as int, q[k].1 as int));
        }
    }
}

/// Values have only one list of runs.
pub proof fn law_runs_unique(
    v: Seq<u32>,
    min: u32,
    least: int,
    n: int,
    p: Seq<(u32, u32)>,
    q: Seq<(u32, u32)>,
)
    requires
        are_runs(v, min, least, n, p),
        are_runs(v, min, least, n, q),
    ensures
        p == q,
{
    lemma_runs_prefix(v, min, least, n, p, q, p.len() as int);
    lemma_runs_prefix(v, min, least, n, q, p, q.len() as int);
    assert(p =~= q);
}

proof fn lemma_runs_prefix(
    v: Seq<u32>,
    min: u32,
    least: int,
    n: int,
    p: Seq<(u32, u32)>,
    q: Seq<(u32, u32)>,
    k: int,
)
    requires
        are_runs(v, min, least, n, p),
        are_runs(v, min, least, n, q),
        0 <= k <= p.len(),
    ensures
        k <= q.len(),
        forall|j: int| 0 <= j < k ==> p[j] == q[j],
    decreases k,
{
    if k > 0 {
        lemma_runs_prefix(v, min, least, n, p, q, k - 1);
        let a = p[k - 1].0 as int;
        let b = p[k - 1].1 as int;
        assert(is_run(v, min, a, b));
        assert(has_run(q, a, b));
        let m = choose|m: int| 0 <= m < q.len() && (#[trigger] q[m]).0 == a && q[m].1 == b;
        if m < k - 1 {
            assert(p[m] == q[m]);
            assert(p[m].1 <= p[k - 1].0);
            assert(is_run(v, min, p[m].0 as int, p[m].1 as int));
        }
        lemma_runs_same(v, min, least, n, p, q, k - 1);
        lemma_runs_same(v, min, least, n, q, p, k - 1);
    }
}

/// The lines of a page: runs of at least five rows that are inked on more than a twentieth of
/// their length.
pub open spec fn are_lines(page: GrayImage, r: Seq<(u32, u32)>) -> bool {
    are_runs(row_profile(page), page.width / 20, 5, page.height as int, r)
}

/// The words of a line: runs of at least ten columns that are inked on more than a quarter of
/// their height.
pub open spec fn are_words(page: GrayImage, top: int, bottom: int, r: Seq<(u32, u32)>) -> bool {
    are_runs(
        column_profile(page, top, bottom),
        ((bottom - top) / 4) as u32,
        10,
        page.width as int,
        r,
    )
}

/// The lines of a page: runs of at least five rows that are inked on more than a twentieth of
/// their length.
pub fn text_lines(page: &GrayImage) -> (r: Vec<(u32, u32)>)
    requires
        page.wf(),
    ensures
        are_runs(row_profile(*page), page.width / 20, 5, page.height as int, r@),
        are_lines(*page, r@),
{
    ink_runs(&row_ink(page), page.width / 20, 5)
}

/// The words of a line: runs of at least ten columns that are inked on more than a quarter of
/// their height.
pub fn line_words(page: &GrayImage, top: u32, bottom: u32) -> (r: Vec<(u32, u32)>)
    requires
        page.wf(),
        top <= bottom <= page.height,
    ensures
        are_runs(
            column_profile(*page, top as int, bottom as int),
            ((bottom - top) / 4) as u32,
            10,
            page.width as int,
            r@,
        ),
        are_words(*page, top as int, bottom as int, r@),
{
    ink_runs(&column_ink(page, top, bottom), (bottom - top) / 4, 10)
}

/// The first of the first three words that is at least twenty columns wide.
pub open spec fn is_sample_word(words: Seq<(u32, u32)>, r: Option<(u32, u32)>) -> bool {
    let n = if words.len() < 3 {
        words.len() as int
    } else {
        3
    };
    match r {
        Some(w) => exists|k: int|
            0 <= k < n && #[trigger] words[k] == w && w.1 - w.0 >= 20 && forall|j: int|
                0 <= j < k ==> (#[trigger] words[j]).1 - words[j].0 < 20,
        None => forall|j: int| 0 <= j < n ==> (#[trigger] words[j]).1 - words[j].0 < 20,
    }
}

/// The word of a line that a character is taken from.
pub fn sample_word(words: &Vec<(u32, u32)>) -> (r: Option<(u32, u32)>)
    requires
        forall|k: int| 0 <= k < words@.len() ==> (#[trigger] words@[k]).0 <= words@[k].1,
    ensures
        is_sample_word(words@, r),
{
    let n: usize = if words.len() < 3 {
        words.len()
    } else {
        3
    };
    for k in 0..n
        invariant
            n == (if words@.len() < 3 {
                words@.len() as int
            } else {
                3
            }),
            forall|i: int| 0 <= i < words@.len() ==> (#[trigger] words@[i]).0 <= words@[i].1,
            forall|j: int| 0 <= j < k ==> (#[trigger] words@[j]).1 - words@[j].0 < 20,
    {
        let w: (u32, u32) = words[k];
        assert(words@[k as int].0 <= words@[k as int].1);
        if w.1 - w.0 >= 20 {
            return Some(w);
        }
    }
    None
}

/// A word on a page, and the part of it that holds about one character.
#[derive(Clone, Copy, Debug, PartialEq, Eq, Structural)]
pub struct ScanSample {
    pub line: usize,
    pub x: u32,
    pub y: u32,
    pub width: u32,
    pub height: u32,
    /// Where the character begins in the word, and how wide it is taken.
    pub char_x: u32,
    pub char_w: u32,
}

/// How wide the character of a word is taken: a fifth of the word, but at least five columns.
pub open spec fn strip_width(ww: int) -> int {
    if ww / 5 < 5 {
        5
    } else {
        ww / 5
    }
}

pub open spec fn smaller(a: int, b: int) -> int {
    if a <= b {
        a
    } else {
        b
    }
}

/// The sample of a line of a page.
pub open spec fn is_sample(page: GrayImage, line: (u32, u32), at: int, r: Option<ScanSample>) -> bool {
    exists|words: Seq<(u32, u32)>, w: Option<(u32, u32)>|
        {
            &&& #[trigger] are_runs(
                column_profile(page, line.0 as int, line.1 as int),
                ((line.1 - line.0) / 4) as u32,
                10,
                page.width as int,
                words,
            )
            &&& #[trigger] is_sample_word(words, w)
            &&& match w {
                None => r is None,
                Some(w) => r is Some && {
                    let s = r->0;
                    let ww = w.1 - w.0;
                    &&& s.line == at
                    &&& s.x == w.0
                    &&& s.y == line.0
                    &&& s.width == ww
                    &&& s.height == line.1 - line.0
                    &&& s.char_x == ww / 3
                    &&& s.char_w == smaller(strip_width(ww), ww - ww / 3)
                },
            }
        }
}

/// Finds the sample of a line.
pub fn line_sample(page: &GrayImage, line: (u32, u32), at: usize) -> (r: Option<ScanSample>)
    requires
        page.wf(),
        line.0 <= line.1 <= page.height,
    ensures
        is_sample(*page, line, at as int, r),
        r is Some ==> fits(*page, r->0),
{
    let words: Vec<(u32, u32)> = line_words(page, line.0, line.1);
    assert(forall|k: int| 0 <= k < words@.len() ==> is_run(
        column_profile(*page, line.0 as int, line.1 as int),
        ((line.1 - line.0) / 4) as u32,
        (#[trigger] words@[k]).0 as int,
        words@[k].1 as int,
    ));
    let s: Option<(u32, u32)> = sample_word(&words);
    assert(is_sample_word(words@, s));
    match s {
        None => None,
        Some(w) => {
            proof {
                let k = choose|k: int| 0 <= k < words@.len() && #[trigger] words@[k] == w;
                assert(words@[k] == w);
            }
            let ww: u32 = w.1 - w.0;
            let wide: u32 = if ww / 5 < 5 {
                5
            } else {
                ww / 5
            };
            let rest: u32 = ww - ww / 3;
            let char_w: u32 = if wide <= rest {
                wide
            } else {
                rest
            };
            let r: ScanSample = ScanSample {
                line: at,
                x: w.0,
                y: line.0,
                width: ww,
                height: line.1 - line.0,
                char_x: ww / 3,
                char_w,
            };
            Some(r)
        },
    }
}

/// A sample lies on the page.
pub open spec fn fits(page: GrayImage, s: ScanSample) -> bool {
    &&& s.x + s.width <= page.width
    &&& s.y + s.height <= page.height
    &&& s.char_x + s.char_w <= s.width
}

/// How many lines are sampled at most.
pub const SAMPLED_LINES: usize = 15;

/// Finds samples in the first lines of a page: each is that of its line, they come in the
/// order of the lines, and a line without one has none.
pub fn scan_samples(page: &GrayImage, lines: &Vec<(u32, u32)>) -> (r: Vec<ScanSample>)
    requires
        page.wf(),
        forall|i: int|
            0 <= i < lines@.len() ==> (#[trigger] lines@[i]).0 <= lines@[i].1 <= page.height,
    ensures
        forall|k: int|
            0 <= k < r@.len() ==> {
                let s = #[trigger] r@[k];
                &&& s.line < smaller(lines@.len() as int, SAMPLED_LINES as int)
                &&& is_sample(*page, lines@[s.line as int], s.line as int, Some(s))
                &&& fits(*page, s)
            },
        forall|j: int, k: int| 0 <= j < k < r@.len() ==> (#[trigger] r@[j]).line < (#[trigger] r@[k]).line,
        forall|i: int|
            0 <= i < smaller(lines@.len() as int, SAMPLED_LINES as int) ==> sampled(r@, i)
                || is_sample(*page, #[trigger] lines@[i], i, None),
{
    let n: usize = if lines.len() < SAMPLED_LINES {
        lines.len()
    } else {
        SAMPLED_LINES
    };
    let mut out: Vec<ScanSample> = Vec::new();
    for i in 0..n
        invariant
            page.wf(),
            n == smaller(lines@.len() as int, SAMPLED_LINES as int),
            forall|i: int|
                0 <= i < lines@.len() ==> (#[trigger] lines@[i]).0 <= lines@[i].1 <= page.height,
            forall|k: int|
                0 <= k < out@.len() ==> {
                    let s = #[trigger] out@[k];
                    &&& s.line < i
                    &&& is_sample(*page, lines@[s.line as int], s.line as int, Some(s))
                    &&& fits(*page, s)
                },
            forall|j: int, k: int|
                0 <= j < k < out@.len() ==> (#[trigger] out@[j]).line < (#[trigger] out@[k]).line,
            forall|k: int|
                0 <= k < i ==> sampled(out@, k) || is_sample(*page, #[trigger] lines@[k], k, None),
    {
        let ghost before = out@;
        assert(lines@[i as int].0 <= lines@[i as int].1 <= page.height);
        match line_sample(page, lines[i], i) {
            Some(s) => {
                out.push(s);
                proof {
                    assert(out@[before.len() as int].line == i);
                    assert(sampled(out@, i as int));
                    assert forall|k: int| 0 <= k < i && sampled(before, k) implies sampled(
                        out@,
                        k,
                    ) by {
                        let m = choose|m: int|
                            0 <= m < before.len() && (#[trigger] before[m]).line == k;
                        assert(out@[m] == before[m]);
                    }
                }
            },
            None => {},
        }
    }
    out
}

/// Line `i` has a sample.
pub open spec fn sampled(r: Seq<ScanSample>, i: int) -> bool {
    exists|k: int| 0 <= k < r.len() && (#[trigger] r[k]).line == i
}

/// The word of a sample, cut out of the page.
pub fn sample_image(page: &GrayImage, s: ScanSample) -> (img: GrayImage)
    requires
        page.wf(),
        fits(*page, s),
    ensures
        img.wf(),
        img.width == s.width,
        img.height == s.height,
        forall|x: int, y: int|
            0 <= x < s.width && 0 <= y < s.height ==> #[trigger] img.px(x, y) == page.px(
                s.x + x,
                s.y + y,
            ),
{
    page.crop(s.x, s.y, s.width, s.height)
}

/// How wide the character of a sample becomes at height `norm_h`: in proportion to what a
/// character of the word takes, rounded up, but at least one column.
pub open spec fn scaled_width(s: ScanSample, norm_h: int) -> int {
    let w = ceil_div(strip_width(s.width as int) * norm_h, s.height as int);
    if w < 1 {
        1
    } else {
        w
    }
}

/// `img` is the strip of a sample that is taken for a character.
pub open spec fn is_strip(page: GrayImage, s: ScanSample, img: GrayImage) -> bool {
    &&& img.wf()
    &&& img.width == s.char_w
    &&& img.height == s.height
    &&& forall|x: int, y: int|
        0 <= x < s.char_w && 0 <= y < s.height ==> #[trigger] img.px(x, y) == page.px(
            s.x + s.char_x + x,
            s.y + y,
        )
}

/// The strip of a sample that is taken for a character.
pub fn sample_strip(page: &GrayImage, s: ScanSample) -> (img: GrayImage)
    requires
        page.wf(),
        fits(*page, s),
    ensures
        is_strip(*page, s, img),
{
    page.crop(s.x + s.char_x, s.y, s.char_w, s.height)
}

/// The character of a sample, brought to height `norm_h`.
pub fn sample_char(page: &GrayImage, s: ScanSample, norm_h: u32) -> (img: GrayImage)
    requires
        page.wf(),
        fits(*page, s),
        s.height > 0,
        scaled_width(s, norm_h as int) <= u32::MAX,
        resizable(s.char_w, s.height, scaled_width(s, norm_h as int) as u32, norm_h),
    ensures
        exists|cut: GrayImage| #[trigger]
            is_strip(*page, s, cut) && in_size(
                cut,
                scaled_width(s, norm_h as int) as u32,
                norm_h,
                img,
            ),
        img.wf(),
        img.width == scaled_width(s, norm_h as int),
        img.height == norm_h,
        img.width == s.char_w && norm_h == s.height ==> forall|x: int, y: int|
            0 <= x < s.char_w && 0 <= y < s.height ==> #[trigger] img.px(x, y) == page.px(
                s.x + s.char_x + x,
                s.y + y,
            ),
{
    let wide: u64 = if s.width / 5 < 5 {
        5
    } else {
        (s.width / 5) as u64
    };
    assert(wide * norm_h <= 0xffff_ffff * 0xffff_ffff) by (nonlinear_arith)
        requires
            0 <= wide <= 0xffff_ffff,
            0 <= norm_h <= 0xffff_ffff,
    ;
    let product: u64 = wide * norm_h as u64;
    let h: u64 = s.height as u64;
    let up: u64 = if product % h == 0 {
        product / h
    } else {
        product / h + 1
    };
    proof {
        lemma_ceil(product as int, h as int);
    }
    let new_w: u32 = if up < 1 {
        1
    } else {
        up as u32
    };
    let cut: GrayImage = sample_strip(page, s);
    let out: GrayImage = resize(&cut, new_w, norm_h);
    proof {
        if out.width == s.char_w && norm_h == s.height {
            assert forall|x: int, y: int| 0 <= x < s.char_w && 0 <= y < s.height implies (
            #[trigger] out.px(x, y)) == page.px(s.x + s.char_x + x, s.y + y) by {
                assert(cut.px(x, y) == page.px(s.x + s.char_x + x, s.y + y));
            }
        }
    }
    out
}

proof fn lemma_ceil(a: int, b: int)
    requires
        0 <= a,
        0 < b,
    ensures
        ceil_div(a, b) == a / b + if a % b == 0 {
            0int
        } else {
            1int
        },
{
    vstd::arithmetic::div_mod::lemma_fundamental_div_mod(a, b);
    let q = a / b;
    let r = a % b;
    if r == 0 {
        assert((a + b - 1) / b == q) by (nonlinear_arith)
            requires
                a == b * q,
                b > 0,
        ;
    } else {
        assert((a + b - 1) / b == q + 1) by (nonlinear_arith)
            requires
                a == b * q + r,
                0 < r < b,
        ;
    }
}

// --- Measures of a character ---

/// The row of a cell, where it is ink.
pub open spec fn ink_row(data: Seq<u8>, w: int) -> spec_fn(int) -> int {
    |i: int|
        if data[i] < INK_THRESHOLD {
            i / w
        } else {
            0
        }
}

/// The ink of an image.
pub struct SimpleStats {
    pub ink: u64,
    pub row_sum: u128,
    pub bounds: CellBox,
}

/// How much ink an image has, in which rows and within which bounds; nothing where it has
/// none.
pub fn simple_stats(img: &GrayImage) -> (r: Option<SimpleStats>)
    requires
        img.wf(),
    ensures
        is_bounds(
            is_ink(img.data@),
            img.width as int,
            img.data@.len() as int,
            match r {
                Some(s) => Some(s.bounds),
                None => None,
            },
        ),
        r is Some ==> r->0.ink == tally(is_ink(img.data@), img.data@.len() as int)
            && r->0.row_sum == total(
            ink_row(img.data@, img.width as int),
            img.data@.len() as int,
        ),
{
    let n: usize = img.data.len();
    let bounds: Option<CellBox> = ink_bounds(img);
    let w: usize = img.width as usize;
    let mut ink: u64 = 0;
    let mut rows: u128 = 0;
    for i in 0..n
        invariant
            img.wf(),
            n == img.data@.len(),
            w == img.width,
            ink == tally(is_ink(img.data@), i as int),
            ink <= i,
            rows == total(ink_row(img.data@, w as int), i as int),
            rows <= i * 0xffff_ffff,
    {
        if img.data[i] < INK_THRESHOLD {
            proof {
                lemma_cell(img.width as int, img.height as int, i as int);
                assert(i * 0xffff_ffff + 0xffff_ffff == (i + 1) * 0xffff_ffff) by (nonlinear_arith);
            }
            ink = ink + 1;
            rows = rows + (i / w) as u128;
        }
    }
    match bounds {
        Some(b) => Some(SimpleStats { ink, row_sum: rows, bounds: b }),
        None => None,
    }
}

// --- Images side by side ---

/// The side of a cell of a chart.
pub const CHART_CELL: u32 = 64;

/// The ground of a chart.
pub const CHART_GROUND: u8 = 240;

/// The line between the scan and the fonts.
pub const CHART_LINE: u8 = 100;

/// A picture of width `w` with an image laid over it, whose upper left corner comes to
/// `(x, y)`; what does not lie on the picture is cut off.
pub open spec fn overlaid(data: Seq<u8>, w: int, img: GrayImage, x: int, y: int) -> Seq<u8> {
    Seq::new(
        data.len(),
        |k: int|
            if x <= k % w < x + img.width && y <= k / w < y + img.height {
                img.px(k % w - x, k / w - y)
            } else {
                data[k]
            },
    )
}

/// Lays an image over a picture.
pub fn overlay(canvas: &mut GrayImage, img: &GrayImage, x: u32, y: u32)
    requires
        old(canvas).wf(),
        img.wf(),
    ensures
        final(canvas).wf(),
        final(canvas).width == old(canvas).width,
        final(canvas).height == old(canvas).height,
        final(canvas).data@ == overlaid(
            old(canvas).data@,
            old(canvas).width as int,
            *img,
            x as int,
            y as int,
        ),
{
    let n: usize = canvas.data.len();
    let w: usize = canvas.width as usize;
    let ghost before = canvas.data@;
    let width: u32 = canvas.width;
    let height: u32 = canvas.height;
    for k in 0..n
        invariant
            canvas.wf(),
            img.wf(),
            n == canvas.data@.len(),
            n == before.len(),
            w == canvas.width,
            canvas.width == width,
            canvas.height == height,
            forall|i: int|
                0 <= i < k ==> #[trigger] canvas.data@[i] == overlaid(
                    before,
                    w as int,
                    *img,
                    x as int,
                    y as int,
                )[i],
            forall|i: int| k <= i < n ==> #[trigger] canvas.data@[i] == before[i],
    {
        proof {
            lemma_cell(width as int, height as int, k as int);
        }
        let cx: u64 = (k % w) as u64;
        let cy: u64 = (k / w) as u64;
        if x as u64 <= cx && cx < x as u64 + img.width as u64 && y as u64 <= cy && cy < y as u64
            + img.height as u64 {
            let v: u8 = img.get((cx - x as u64) as u32, (cy - y as u64) as u32);
            canvas.data.set(k, v);
        }
    }
    assert(canvas.data@ =~= overlaid(before, w as int, *img, x as int, y as int));
}

/// How far an image is moved into its cell to stand in the middle.
pub open spec fn inset(size: int) -> int {
    if size < CHART_CELL {
        (CHART_CELL - size) / 2
    } else {
        0
    }
}

fn inset_of(size: u32) -> (r: u32)
    ensures
        r == inset(size as int),
{
    if size < CHART_CELL {
        (CHART_CELL - size) / 2
    } else {
        0
    }
}

/// A picture with an image in the cell of a column and a row.
pub open spec fn with_cell(data: Seq<u8>, w: int, img: GrayImage, col: int, row: int) -> Seq<u8> {
    overlaid(
        data,
        w,
        img,
        col * CHART_CELL + inset(img.width as int),
        row * CHART_CELL + inset(img.height as int),
    )
}

fn put_cell(canvas: &mut GrayImage, img: &GrayImage, col: u32, row: u32)
    requires
        old(canvas).wf(),
        img.wf(),
        (col + 1) * CHART_CELL <= u32::MAX,
        (row + 1) * CHART_CELL <= u32::MAX,
    ensures
        final(canvas).wf(),
        final(canvas).width == old(canvas).width,
        final(canvas).height == old(canvas).height,
        final(canvas).data@ == with_cell(
            old(canvas).data@,
            old(canvas).width as int,
            *img,
            col as int,
            row as int,
        ),
{
    let x: u32 = col * CHART_CELL + inset_of(img.width);
    let y: u32 = row * CHART_CELL + inset_of(img.height);
    overlay(canvas, img, x, y);
}

/// A picture with the images of a column, each in its row.
pub open spec fn with_column(
    data: Seq<u8>,
    w: int,
    imgs: Seq<Option<GrayImage>>,
    col: int,
    n: int,
) -> Seq<u8>
    decreases n,
{
    if n <= 0 {
        data
    } else {
        let d = with_column(data, w, imgs, col, n - 1);
        match imgs[n - 1] {
            Some(img) => with_cell(d, w, img, col, n - 1),
            None => d,
        }
    }
}

/// A picture with the images of the first `n` columns.
pub open spec fn with_columns(
    data: Seq<u8>,
    w: int,
    cols: Seq<Vec<Option<GrayImage>>>,
    n: int,
) -> Seq<u8>
    decreases n,
{
    if n <= 0 {
        data
    } else {
        with_column(
            with_columns(data, w, cols, n - 1),
            w,
            cols[n - 1]@,
            n - 1,
            cols[n - 1]@.len() as int,
        )
    }
}

/// An empty picture.
pub open spec fn ground(w: int, h: int) -> Seq<u8> {
    Seq::new((w * h) as nat, |i: int| CHART_GROUND)
}

/// A picture can be made: its sides and its cells can be counted.
pub open spec fn chart_fits(cols: int, rows: int) -> bool {
    &&& (cols + 1) * CHART_CELL <= u32::MAX
    &&& (rows + 1) * CHART_CELL <= u32::MAX
    &&& (cols * CHART_CELL) * (rows * CHART_CELL) <= usize::MAX
}

/// A chart of images, a column of cells for each list.
pub fn font_grid(cols: &Vec<Vec<Option<GrayImage>>>, rows: u32) -> (chart: GrayImage)
    requires
        chart_fits(cols@.len() as int, rows as int),
        forall|c: int| 0 <= c < cols@.len() ==> (#[trigger] cols@[c])@.len() <= rows,
        forall|c: int, i: int|
            0 <= c < cols@.len() && 0 <= i < cols@[c]@.len() ==> ((#[trigger] cols@[c]@[i]) is Some
                ==> cols@[c]@[i]->0.wf()),
    ensures
        chart.wf(),
        chart.width == cols@.len() * CHART_CELL,
        chart.height == rows * CHART_CELL,
        chart.data@ == with_columns(
            ground(chart.width as int, chart.height as int),
            chart.width as int,
            cols@,
            cols@.len() as int,
        ),
{
    let n: usize = cols.len();
    let w: u32 = n as u32 * CHART_CELL;
    let h: u32 = rows * CHART_CELL;
    let mut chart: GrayImage = GrayImage::from_pixel(w, h, CHART_GROUND);
    let ghost g = ground(w as int, h as int);
    assert(chart.data@ =~= g);
    for c in 0..n
        invariant
            n == cols@.len(),
            chart_fits(cols@.len() as int, rows as int),
            forall|c: int| 0 <= c < cols@.len() ==> (#[trigger] cols@[c])@.len() <= rows,
            forall|c: int, i: int|
                0 <= c < cols@.len() && 0 <= i < cols@[c]@.len() ==> ((
                #[trigger] cols@[c]@[i]) is Some ==> cols@[c]@[i]->0.wf()),
            chart.wf(),
            chart.width == w,
            chart.height == h,
            chart.data@ == with_columns(g, w as int, cols@, c as int),
    {
        let m: usize = cols[c].len();
        let ghost d = chart.data@;
        assert(cols@[c as int]@.len() <= rows);
        for i in 0..m
            invariant
                n == cols@.len(),
                c < n,
                m == cols@[c as int]@.len(),
                m <= rows,
                chart_fits(cols@.len() as int, rows as int),
                forall|c: int, i: int|
                    0 <= c < cols@.len() && 0 <= i < cols@[c]@.len() ==> ((
                    #[trigger] cols@[c]@[i]) is Some ==> cols@[c]@[i]->0.wf()),
                chart.wf(),
                chart.width == w,
                chart.height == h,
                chart.data@ == with_column(d, w as int, cols@[c as int]@, c as int, i as int),
        {
            assert(cols@[c as int]@[i as int] is Some ==> cols@[c as int]@[i as int]->0.wf());
            match &cols[c][i] {
                Some(img) => {
                    put_cell(&mut chart, img, c as u32, i as u32);
                },
                None => {},
            }
        }
    }
    chart
}

/// A picture with a line down the right side of the first cell of a row.
pub open spec fn with_line(data: Seq<u8>, w: int, row: int) -> Seq<u8> {
    Seq::new(
        data.len(),
        |k: int|
            if k % w == CHART_CELL - 1 && row * CHART_CELL <= k / w < (row + 1) * CHART_CELL {
                CHART_LINE
            } else {
                data[k]
            },
    )
}

/// A picture with the first `n` fonts in the cells behind the first one of a row.
pub open spec fn with_fonts(data: Seq<u8>, w: int, fonts: Seq<GrayImage>, row: int, n: int) -> Seq<u8>
    decreases n,
{
    if n <= 0 {
        data
    } else {
        with_cell(with_fonts(data, w, fonts, row, n - 1), w, fonts[n - 1], n, row)
    }
}

/// A picture with the first `n` scans, each in a row of its own before the fonts.
pub open spec fn with_scans(
    data: Seq<u8>,
    w: int,
    scans: Seq<GrayImage>,
    fonts: Seq<GrayImage>,
    n: int,
) -> Seq<u8>
    decreases n,
{
    if n <= 0 {
        data
    } else {
        let d = with_scans(data, w, scans, fonts, n - 1);
        with_fonts(
            with_line(with_cell(d, w, scans[n - 1], 0, n - 1), w, n - 1),
            w,
            fonts,
            n - 1,
            fonts.len() as int,
        )
    }
}

fn draw_line(canvas: &mut GrayImage, row: u32)
    requires
        old(canvas).wf(),
        (row + 1) * CHART_CELL <= u32::MAX,
    ensures
        final(canvas).wf(),
        final(canvas).width == old(canvas).width,
        final(canvas).height == old(canvas).height,
        final(canvas).data@ == with_line(
            old(canvas).data@,
            old(canvas).width as int,
            row as int,
        ),
{
    let n: usize = canvas.data.len();
    let w: usize = canvas.width as usize;
    let width: u32 = canvas.width;
    let height: u32 = canvas.height;
    let ghost before = canvas.data@;
    for k in 0..n
        invariant
            canvas.wf(),
            n == canvas.data@.len(),
            n == before.len(),
            w == canvas.width,
            canvas.width == width,
            canvas.height == height,
            (row + 1) * CHART_CELL <= u32::MAX,
            forall|i: int|
                0 <= i < k ==> #[trigger] canvas.data@[i] == with_line(
                    before,
                    w as int,
                    row as int,
                )[i],
            forall|i: int| k <= i < n ==> #[trigger] canvas.data@[i] == before[i],
    {
        proof {
            lemma_cell(width as int, height as int, k as int);
        }
        let cy: u64 = (k / w) as u64;
        if k % w == (CHART_CELL - 1) as usize && row as u64 * CHART_CELL as u64 <= cy && cy < (row
            as u64 + 1) * CHART_CELL as u64 {
            canvas.data.set(k, CHART_LINE);
        }
    }
    assert(canvas.data@ =~= with_line(before, w as int, row as int));
}

/// How many scans are set beside the fonts at most.
pub const CHART_SCANS: usize = 10;

/// A chart of scans, each beside all fonts; there is none without a scan.
pub fn comparison_chart(scans: &Vec<GrayImage>, fonts: &Vec<GrayImage>) -> (r: Option<GrayImage>)
    requires
        chart_fits(fonts@.len() as int + 1, CHART_SCANS as int),
        forall|i: int| 0 <= i < scans@.len() ==> (#[trigger] scans@[i]).wf(),
        forall|i: int| 0 <= i < fonts@.len() ==> (#[trigger] fonts@[i]).wf(),
    ensures
        r is None <==> scans@.len() == 0,
        r is Some ==> {
            let chart = r->0;
            let n = smaller(scans@.len() as int, CHART_SCANS as int);
            &&& chart.wf()
            &&& chart.width == (fonts@.len() + 1) * CHART_CELL
            &&& chart.height == n * CHART_CELL
            &&& chart.data@ == with_scans(
                ground(chart.width as int, chart.height as int),
                chart.width as int,
                scans@,
                fonts@,
                n,
            )
        },
{
    if scans.len() == 0 {
        return None;
    }
    let n: usize = if scans.len() < CHART_SCANS {
        scans.len()
    } else {
        CHART_SCANS
    };
    let m: usize = fonts.len();
    let w: u32 = (m as u32 + 1) * CHART_CELL;
    let h: u32 = n as u32 * CHART_CELL;
    proof {
        assert(w * h <= w * (CHART_SCANS * CHART_CELL)) by (nonlinear_arith)
            requires
                h <= CHART_SCANS * CHART_CELL,
                0 <= w,
        ;
    }
    let mut chart: GrayImage = GrayImage::from_pixel(w, h, CHART_GROUND);
    let ghost g = ground(w as int, h as int);
    assert(chart.data@ =~= g);
    for i in 0..n
        invariant
            n == smaller(scans@.len() as int, CHART_SCANS as int),
            m == fonts@.len(),
            chart_fits(fonts@.len() as int + 1, CHART_SCANS as int),
            forall|i: int| 0 <= i < scans@.len() ==> (#[trigger] scans@[i]).wf(),
            forall|i: int| 0 <= i < fonts@.len() ==> (#[trigger] fonts@[i]).wf(),
            chart.wf(),
            chart.width == w,
            chart.height == h,
            chart.data@ == with_scans(g, w as int, scans@, fonts@, i as int),
    {
        assert(scans@[i as int].wf());
        put_cell(&mut chart, &scans[i], 0, i as u32);
        draw_line(&mut chart, i as u32);
        let ghost d = chart.data@;
        for k in 0..m
            invariant
                i < n <= CHART_SCANS,
                m == fonts@.len(),
                chart_fits(fonts@.len() as int + 1, CHART_SCANS as int),
                forall|i: int| 0 <= i < fonts@.len() ==> (#[trigger] fonts@[i]).wf(),
                chart.wf(),
                chart.width == w,
                chart.height == h,
                chart.data@ == with_fonts(d, w as int, fonts@, i as int, k as int),
        {
            assert(fonts@[k as int].wf());
            put_cell(&mut chart, &fonts[k], 1 + k as u32, i as u32);
        }
    }
    Some(chart)
}

// --- What is found ---

/// A row has as much ink as it has pixels darker than 180, and so has a column between two
/// rows.
pub proof fn law_profiles(img: GrayImage, x: int, y: int, top: int, bottom: int)
    requires
        0 <= x < img.width,
        0 <= y < img.height,
        0 <= top <= bottom <= img.height,
    ensures
        row_profile(img).len() == img.height,
        column_profile(img, top, bottom).len() == img.width,
        row_profile(img)[y] == tally(|i: int| img.px(i, y) < 180, img.width as int),
        column_profile(img, top, bottom)[x] == tally(
            |k: int| img.px(x, top + k) < 180,
            bottom - top,
        ),
{
    let p = dark_in_row(img, y);
    let q = dark_in_column(img, x, top);
    crate::counting::lemma_tally_bounds(p, img.width as int);
    crate::counting::lemma_tally_bounds(q, bottom - top);
    crate::counting::lemma_tally_same(p, |i: int| img.px(i, y) < 180, img.width as int);
    crate::counting::lemma_tally_same(q, |k: int| img.px(x, top + k) < 180, bottom - top);
}

/// A line is a stretch of five rows or more in which every row has ink on more than a twentieth
/// of the width, while the row before it and the one after it have not. All such stretches that
/// do not touch the lower edge are lines, and they come from top to bottom.
pub proof fn law_lines(page: GrayImage, r: Seq<(u32, u32)>, ink: spec_fn(int) -> int)
    requires
        page.wf(),
        are_lines(page, r),
        forall|y: int|
            0 <= y < page.height ==> #[trigger] ink(y) == tally(
                |x: int| page.px(x, y) < 180,
                page.width as int,
            ),
    ensures
        forall|k: int|
            0 <= k < r.len() ==> {
                let (a, b) = #[trigger] r[k];
                &&& a + 5 <= b < page.height
                &&& 20 * ink(b as int) <= page.width
                &&& a > 0 ==> 20 * ink(a - 1) <= page.width
                &&& forall|y: int| a <= y < b ==> 20 * #[trigger] ink(y) > page.width
            },
        forall|a: int, b: int|
            0 <= a && a + 5 <= b < page.height && 20 * #[trigger] ink(b) <= page.width && (a == 0
                || 20 * ink(a - 1) <= page.width) && (forall|y: int|
                a <= y < b ==> 20 * #[trigger] ink(y) > page.width) ==> #[trigger] has_run(r, a, b),
        forall|j: int, k: int|
            0 <= j < k < r.len() ==> (#[trigger] r[j]).1 <= (#[trigger] r[k]).0,
{
    let v = row_profile(page);
    let min = page.width / 20;
    assert forall|y: int| 0 <= y < page.height implies #[trigger] v[y] == ink(y) && (v[y] > min
        <==> 20 * ink(y) > page.width) by {
        lemma_profiles_row(page, y);
        assert(v[y] == ink(y));
    }
    assert forall|k: int| 0 <= k < r.len() implies ({
        let (a, b) = #[trigger] r[k];
        &&& a + 5 <= b < page.height
        &&& 20 * ink(b as int) <= page.width
        &&& a > 0 ==> 20 * ink(a - 1) <= page.width
        &&& forall|y: int| a <= y < b ==> 20 * #[trigger] ink(y) > page.width
    }) by {
        let (a, b) = r[k];
        assert(is_run(v, min, a as int, b as int));
        assert(v[b as int] <= min);
        if a > 0 {
            assert(v[a - 1] <= min);
        }
        assert forall|y: int| a <= y < b implies 20 * #[trigger] ink(y) > page.width by {
            assert(v[y] > min);
        }
    }
    assert forall|a: int, b: int|
        0 <= a && a + 5 <= b < page.height && 20 * #[trigger] ink(b) <= page.width && (a == 0 || 20
            * ink(a - 1) <= page.width) && (forall|y: int|
            a <= y < b ==> 20 * #[trigger] ink(y) > page.width) implies #[trigger] has_run(r, a, b) by {
        assert(v[b] <= min);
        if a > 0 {
            assert(v[a - 1] <= min);
        }
        assert forall|i: int| a <= i < b implies #[trigger] v[i] > min by {
            assert(20 * ink(i) > page.width);
        }
        assert(is_run(v, min, a, b));
    }
}

proof fn lemma_profiles_row(page: GrayImage, y: int)
    requires
        0 <= y < page.height,
    ensures
        row_profile(page)[y] == tally(|x: int| page.px(x, y) < 180, page.width as int),
{
    let p = dark_in_row(page, y);
    crate::counting::lemma_tally_bounds(p, page.width as int);
    crate::counting::lemma_tally_same(p, |x: int| page.px(x, y) < 180, page.width as int);
}

/// A word of a line is a stretch of ten columns or more in which every column has ink on more
/// than a quarter of the line's height, while the column before it and the one after it have
/// not. All such stretches that do not touch the right edge are words, from left to right.
pub proof fn law_words(
    page: GrayImage,
    top: int,
    bottom: int,
    r: Seq<(u32, u32)>,
    ink: spec_fn(int) -> int,
)
    requires
        page.wf(),
        0 <= top <= bottom <= page.height,
        are_words(page, top, bottom, r),
        forall|x: int|
            0 <= x < page.width ==> #[trigger] ink(x) == tally(
                |k: int| page.px(x, top + k) < 180,
                bottom - top,
            ),
    ensures
        forall|k: int|
            0 <= k < r.len() ==> {
                let (a, b) = #[trigger] r[k];
                &&& a + 10 <= b < page.width
                &&& 4 * ink(b as int) <= bottom - top
                &&& a > 0 ==> 4 * ink(a - 1) <= bottom - top
                &&& forall|x: int| a <= x < b ==> 4 * #[trigger] ink(x) > bottom - top
            },
        forall|a: int, b: int|
            0 <= a && a + 10 <= b < page.width && 4 * #[trigger] ink(b) <= bottom - top && (a == 0
                || 4 * ink(a - 1) <= bottom - top) && (forall|x: int|
                a <= x < b ==> 4 * #[trigger] ink(x) > bottom - top) ==> #[trigger] has_run(r, a, b),
        forall|j: int, k: int|
            0 <= j < k < r.len() ==> (#[trigger] r[j]).1 <= (#[trigger] r[k]).0,
{
    let v = column_profile(page, top, bottom);
    let min = ((bottom - top) / 4) as u32;
    assert forall|x: int| 0 <= x < page.width implies #[trigger] v[x] == ink(x) && (v[x] > min
        <==> 4 * ink(x) > bottom - top) by {
        let q = dark_in_column(page, x, top);
        crate::counting::lemma_tally_bounds(q, bottom - top);
        crate::counting::lemma_tally_same(q, |k: int| page.px(x, top + k) < 180, bottom - top);
        assert(v[x] == ink(x));
    }
    assert forall|k: int| 0 <= k < r.len() implies ({
        let (a, b) = #[trigger] r[k];
        &&& a + 10 <= b < page.width
        &&& 4 * ink(b as int) <= bottom - top
        &&& a > 0 ==> 4 * ink(a - 1) <= bottom - top
        &&& forall|x: int| a <= x < b ==> 4 * #[trigger] ink(x) > bottom - top
    }) by {
        let (a, b) = r[k];
        assert(is_run(v, min, a as int, b as int));
        assert(v[b as int] <= min);
        if a > 0 {
            assert(v[a - 1] <= min);
        }
        assert forall|x: int| a <= x < b implies 4 * #[trigger] ink(x) > bottom - top by {
            assert(v[x] > min);
        }
    }
    assert forall|a: int, b: int|
        0 <= a && a + 10 <= b < page.width && 4 * #[trigger] ink(b) <= bottom - top && (a == 0 || 4
            * ink(a - 1) <= bottom - top) && (forall|x: int|
            a <= x < b ==> 4 * #[trigger] ink(x) > bottom - top) implies #[trigger] has_run(r, a, b) by {
        assert(v[b] <= min);
        if a > 0 {
            assert(v[a - 1] <= min);
        }
        assert forall|i: int| a <= i < b implies #[trigger] v[i] > min by {
            assert(4 * ink(i) > bottom - top);
        }
        assert(is_run(v, min, a, b));
    }
}

/// A character is sampled from the first word of at least twenty columns among the first three
/// of a line. It begins after a third of the word and is a fifth of it wide, but at least five
/// columns, as far as the word goes on.
pub proof fn law_sample(
    page: GrayImage,
    line: (u32, u32),
    at: int,
    r: Option<ScanSample>,
    words: Seq<(u32, u32)>,
)
    requires
        line.0 <= line.1 <= page.height,
        is_sample(page, line, at, r),
        are_words(page, line.0 as int, line.1 as int, words),
    ensures
        r is None <==> forall|j: int|
            0 <= j < 3 && j < words.len() ==> (#[trigger] words[j]).1 - words[j].0 < 20,
        r matches Some(s) ==> {
            &&& exists|k: int|
                {
                    &&& 0 <= k < 3 && k < words.len()
                    &&& (#[trigger] words[k]).0 == s.x && words[k].1 == s.x + s.width
                    &&& forall|j: int|
                        0 <= j < k ==> (#[trigger] words[j]).1 - words[j].0 < 20
                }
            &&& s.width >= 20
            &&& s.line == at && s.y == line.0 && s.y + s.height == line.1
            &&& 3 * s.char_x <= s.width < 3 * s.char_x + 3
            &&& s.char_x + s.char_w <= s.width
            &&& s.width < 25 ==> s.char_w == 5
            &&& s.width >= 25 ==> 5 * s.char_w <= s.width < 5 * s.char_w + 5
        },
{
    let (ws, w) = choose|ws: Seq<(u32, u32)>, w: Option<(u32, u32)>|
        {
            &&& #[trigger] are_runs(
                column_profile(page, line.0 as int, line.1 as int),
                ((line.1 - line.0) / 4) as u32,
                10,
                page.width as int,
                ws,
            )
            &&& #[trigger] is_sample_word(ws, w)
            &&& match w {
                None => r is None,
                Some(w) => r is Some && {
                    let s = r->0;
                    let ww = w.1 - w.0;
                    &&& s.line == at
                    &&& s.x == w.0
                    &&& s.y == line.0
                    &&& s.width == ww
                    &&& s.height == line.1 - line.0
                    &&& s.char_x == ww / 3
                    &&& s.char_w == smaller(strip_width(ww), ww - ww / 3)
                },
            }
        };
    law_runs_unique(
        column_profile(page, line.0 as int, line.1 as int),
        ((line.1 - line.0) / 4) as u32,
        10,
        page.width as int,
        ws,
        words,
    );
    let n = if words.len() < 3 {
        words.len() as int
    } else {
        3
    };
    if w is Some {
        let taken = w->0;
        let k = choose|k: int|
            0 <= k < n && #[trigger] words[k] == taken && taken.1 - taken.0 >= 20 && forall|j: int|
                0 <= j < k ==> (#[trigger] words[j]).1 - words[j].0 < 20;
        let s = r->0;
        assert(words[k].0 == s.x && words[k].1 == s.x + s.width);
    } else {
        assert forall|j: int| 0 <= j < 3 && j < words.len() implies (#[trigger] words[j]).1
            - words[j].0 < 20 by {
            assert(0 <= j < n);
        }
    }
}

/// Bringing a sample to a height keeps the proportions of a fifth of its word: the width is the
/// least that is not too narrow, and at least one.
pub proof fn law_scaled_width(s: ScanSample, norm_h: int)
    requires
        0 <= norm_h,
        0 < s.height,
    ensures
        ({
            let strip = if s.width < 25 {
                5
            } else {
                s.width as int / 5
            };
            let w = scaled_width(s, norm_h);
            &&& w >= 1
            &&& w * s.height >= strip * norm_h
            &&& w > 1 ==> (w - 1) * s.height < strip * norm_h
        }),
{
    let strip = if s.width < 25 {
        5
    } else {
        s.width as int / 5
    };
    assert(strip == strip_width(s.width as int));
    let a = strip * norm_h;
    let h = s.height as int;
    let q = (a + h - 1) / h;
    vstd::arithmetic::div_mod::lemma_fundamental_div_mod(a + h - 1, h);
    vstd::arithmetic::div_mod::lemma_mod_bound(a + h - 1, h);
    assert(h * q == q * h && (q - 1) * h == q * h - h) by (nonlinear_arith);
    assert(0 <= a) by (nonlinear_arith)
        requires
            a == strip * norm_h,
            strip >= 0,
            norm_h >= 0,
    ;
    if q < 1 {
        assert(q * h <= 0) by (nonlinear_arith)
            requires
                q <= 0,
                h > 0,
        ;
    }
}

/// What is counted of a character: its pixels darker than 200, and the rows that they stand in.
/// So the mean row lies between the first and the last row with ink.
pub proof fn law_simple_stats(img: GrayImage, s: SimpleStats)
    requires
        img.wf(),
        is_bounds(is_ink(img.data@), img.width as int, img.data@.len() as int, Some(s.bounds)),
        s.ink == tally(is_ink(img.data@), img.data@.len() as int),
        s.row_sum == total(ink_row(img.data@, img.width as int), img.data@.len() as int),
    ensures
        s.ink == tally(|i: int| img.data@[i] < 200, img.data@.len() as int),
        s.row_sum == total(
            |i: int|
                if img.data@[i] < 200 {
                    i / (img.width as int)
                } else {
                    0
                },
            img.data@.len() as int,
        ),
        s.bounds.min_y * s.ink <= s.row_sum <= s.bounds.max_y * s.ink,
        s.ink > 0,
{
    let d = img.data@;
    let w = img.width as int;
    let n = d.len() as int;
    let p = is_ink(d);
    let f = ink_row(d, w);
    crate::counting::lemma_tally_same(p, |i: int| d[i] < 200, n);
    crate::counting::lemma_total_same(
        f,
        |i: int|
            if d[i] < 200 {
                i / w
            } else {
                0
            },
        n,
    );
    assert forall|i: int| 0 <= i < n && p(i) implies s.bounds.min_y <= #[trigger] f(i)
        <= s.bounds.max_y by {}
    crate::counting::lemma_total_per_tally(f, p, n, s.bounds.min_y as int, s.bounds.max_y as int);
    let i = choose|i: int| 0 <= i < n && #[trigger] p(i) && i % w == s.bounds.min_x;
    crate::counting::lemma_tally_positive(p, i, n);
}

/// An image laid over a picture covers just the pixels from its corner on, as far as it
/// reaches, and shows there its own; all others stay.
pub proof fn law_overlaid(data: Seq<u8>, w: int, h: int, img: GrayImage, x: int, y: int, px: int, py: int)
    requires
        0 <= px < w,
        0 <= py < h,
        data.len() == w * h,
    ensures
        overlaid(data, w, img, x, y).len() == data.len(),
        x <= px < x + img.width && y <= py < y + img.height ==> overlaid(data, w, img, x, y)[py * w
            + px] == img.px(px - x, py - y),
        !(x <= px < x + img.width && y <= py < y + img.height) ==> overlaid(data, w, img, x, y)[py
            * w + px] == data[py * w + px],
{
    crate::grid::lemma_flat(w, h, px, py);
}

/// A smaller image stands in the middle of its cell of 64 by 64 pixels: what is left over is
/// shared out on both sides, and an odd pixel comes behind it. A larger one begins at the edge.
pub proof fn law_inset(size: int)
    requires
        0 <= size,
    ensures
        size <= 64 ==> 0 <= 64 - size - 2 * inset(size) <= 1 && inset(size) >= 0,
        size >= 64 ==> inset(size) == 0,
{
}

/// Where all images fit into their cells, a chart shows in each cell of 64 by 64 pixels the
/// image of that column and row, in the middle, and the ground of level 240 around it and in
/// cells without image.
pub proof fn law_grid_cell(cols: Seq<Vec<Option<GrayImage>>>, w: int, h: int, x: int, y: int)
    requires
        w == cols.len() * 64,
        0 <= x < w,
        0 <= y < h,
        forall|c: int, i: int|
            0 <= c < cols.len() && 0 <= i < cols[c]@.len() ==> ((#[trigger] cols[c]@[i]) is Some
                ==> cols[c]@[i]->0.width <= 64 && cols[c]@[i]->0.height <= 64),
    ensures
        ({
            let chart = with_columns(ground(w, h), w, cols, cols.len() as int);
            let c = x / 64;
            let r = y / 64;
            let here = if r < cols[c]@.len() {
                cols[c]@[r]
            } else {
                None
            };
            chart[y * w + x] == match here {
                Some(img) => {
                    let dx = x - 64 * c - inset(img.width as int);
                    let dy = y - 64 * r - inset(img.height as int);
                    if 0 <= dx < img.width && 0 <= dy < img.height {
                        img.px(dx, dy)
                    } else {
                        240
                    }
                },
                None => 240,
            }
        }),
{
    let k = y * w + x;
    crate::grid::lemma_flat(w, h, x, y);
    lemma_columns_shown(ground(w, h), w, cols, cols.len() as int, k);
}

proof fn lemma_cell_shown(data: Seq<u8>, w: int, img: GrayImage, col: int, row: int, k: int)
    requires
        0 < w,
        0 <= k < data.len(),
        0 <= col,
        0 <= row,
        img.width <= 64,
        img.height <= 64,
    ensures
        with_cell(data, w, img, col, row).len() == data.len(),
        (k % w) / 64 != col || (k / w) / 64 != row ==> with_cell(data, w, img, col, row)[k]
            == data[k],
        (k % w) / 64 == col && (k / w) / 64 == row ==> with_cell(data, w, img, col, row)[k] == ({
            let dx = k % w - 64 * col - inset(img.width as int);
            let dy = k / w - 64 * row - inset(img.height as int);
            if 0 <= dx < img.width && 0 <= dy < img.height {
                img.px(dx, dy)
            } else {
                data[k]
            }
        }),
{
}

proof fn lemma_column_shown(
    data: Seq<u8>,
    w: int,
    imgs: Seq<Option<GrayImage>>,
    col: int,
    n: int,
    k: int,
)
    requires
        0 < w,
        0 <= k < data.len(),
        0 <= col,
        0 <= n <= imgs.len(),
        forall|i: int|
            0 <= i < imgs.len() ==> ((#[trigger] imgs[i]) is Some ==> imgs[i]->0.width <= 64
                && imgs[i]->0.height <= 64),
    ensures
        with_column(data, w, imgs, col, n).len() == data.len(),
        ({
            let r = (k / w) / 64;
            let here = if (k % w) / 64 == col && 0 <= r < n {
                imgs[r]
            } else {
                None
            };
            with_column(data, w, imgs, col, n)[k] == match here {
                Some(img) => {
                    let dx = k % w - 64 * col - inset(img.width as int);
                    let dy = k / w - 64 * r - inset(img.height as int);
                    if 0 <= dx < img.width && 0 <= dy < img.height {
                        img.px(dx, dy)
                    } else {
                        data[k]
                    }
                },
                None => data[k],
            }
        }),
    decreases n,
{
    if n > 0 {
        lemma_column_shown(data, w, imgs, col, n - 1, k);
        let d = with_column(data, w, imgs, col, n - 1);
        match imgs[n - 1] {
            Some(img) => {
                assert(imgs[n - 1] is Some);
                lemma_cell_shown(d, w, img, col, n - 1, k);
            },
            None => {},
        }
    }
}

proof fn lemma_columns_shown(
    data: Seq<u8>,
    w: int,
    cols: Seq<Vec<Option<GrayImage>>>,
    n: int,
    k: int,
)
    requires
        0 < w,
        0 <= k < data.len(),
        0 <= n <= cols.len(),
        forall|c: int, i: int|
            0 <= c < cols.len() && 0 <= i < cols[c]@.len() ==> ((#[trigger] cols[c]@[i]) is Some
                ==> cols[c]@[i]->0.width <= 64 && cols[c]@[i]->0.height <= 64),
        (k / w) / 64 >= 0,
    ensures
        with_columns(data, w, cols, n).len() == data.len(),
        ({
            let c = (k % w) / 64;
            let r = (k / w) / 64;
            let here = if 0 <= c < n && r < cols[c]@.len() {
                cols[c]@[r]
            } else {
                None
            };
            with_columns(data, w, cols, n)[k] == match here {
                Some(img) => {
                    let dx = k % w - 64 * c - inset(img.width as int);
                    let dy = k / w - 64 * r - inset(img.height as int);
                    if 0 <= dx < img.width && 0 <= dy < img.height {
                        img.px(dx, dy)
                    } else {
                        data[k]
                    }
                },
                None => data[k],
            }
        }),
    decreases n,
{
    if n > 0 {
        lemma_columns_shown(data, w, cols, n - 1, k);
        let d = with_columns(data, w, cols, n - 1);
        let imgs = cols[n - 1]@;
        assert forall|i: int| 0 <= i < imgs.len() implies ((#[trigger] imgs[i]) is Some
            ==> imgs[i]->0.width <= 64 && imgs[i]->0.height <= 64) by {
            assert(cols[n - 1]@[i] == imgs[i]);
        }
        lemma_column_shown(d, w, imgs, n - 1, imgs.len() as int, k);
    }
}

/// A line of level 100 runs down the last column of the first cell of its row, and nothing else
/// changes.
pub proof fn law_chart_line(data: Seq<u8>, w: int, h: int, row: int, x: int, y: int)
    requires
        0 <= x < w,
        0 <= y < h,
        data.len() == w * h,
    ensures
        with_line(data, w, row)[y * w + x] == (if x == 63 && y / 64 == row {
            100
        } else {
            data[y * w + x]
        }),
{
    crate::grid::lemma_flat(w, h, x, y);
}

/// Where all images fit into their cells, a comparison shows in each row the scan of that row
/// in the first cell and behind it, in the same cells of every row, the fonts; the last column
/// of the first cell is a line.
pub proof fn law_comparison_cell(
    scans: Seq<GrayImage>,
    fonts: Seq<GrayImage>,
    w: int,
    h: int,
    n: int,
    x: int,
    y: int,
)
    requires
        w == (fonts.len() + 1) * 64,
        h == n * 64,
        0 <= n <= scans.len(),
        0 <= x < w,
        0 <= y < h,
        forall|i: int|
            0 <= i < scans.len() ==> (#[trigger] scans[i]).width <= 64 && scans[i].height <= 64,
        forall|i: int|
            0 <= i < fonts.len() ==> (#[trigger] fonts[i]).width <= 64 && fonts[i].height <= 64,
    ensures
        ({
            let c = x / 64;
            let r = y / 64;
            let img = if c == 0 {
                scans[r]
            } else {
                fonts[c - 1]
            };
            let dx = x - 64 * c - inset(img.width as int);
            let dy = y - 64 * r - inset(img.height as int);
            with_scans(ground(w, h), w, scans, fonts, n)[y * w + x] == (if x == 63 {
                100
            } else if 0 <= dx < img.width && 0 <= dy < img.height {
                img.px(dx, dy)
            } else {
                240
            })
        }),
{
    crate::grid::lemma_flat(w, h, x, y);
    lemma_scans_shown(ground(w, h), w, scans, fonts, n, y * w + x);
}

proof fn lemma_fonts_shown(data: Seq<u8>, w: int, fonts: Seq<GrayImage>, row: int, n: int, k: int)
    requires
        0 < w,
        0 <= row,
        0 <= k < data.len(),
        0 <= n <= fonts.len(),
        forall|i: int|
            0 <= i < fonts.len() ==> (#[trigger] fonts[i]).width <= 64 && fonts[i].height <= 64,
    ensures
        with_fonts(data, w, fonts, row, n).len() == data.len(),
        ({
            let c = (k % w) / 64;
            with_fonts(data, w, fonts, row, n)[k] == (if (k / w) / 64 == row && 1 <= c <= n {
                let img = fonts[c - 1];
                let dx = k % w - 64 * c - inset(img.width as int);
                let dy = k / w - 64 * row - inset(img.height as int);
                if 0 <= dx < img.width && 0 <= dy < img.height {
                    img.px(dx, dy)
                } else {
                    data[k]
                }
            } else {
                data[k]
            })
        }),
    decreases n,
{
    if n > 0 {
        lemma_fonts_shown(data, w, fonts, row, n - 1, k);
        lemma_cell_shown(with_fonts(data, w, fonts, row, n - 1), w, fonts[n - 1], n, row, k);
    }
}

proof fn lemma_scans_shown(
    data: Seq<u8>,
    w: int,
    scans: Seq<GrayImage>,
    fonts: Seq<GrayImage>,
    n: int,
    k: int,
)
    requires
        0 < w,
        0 <= k < data.len(),
        0 <= n <= scans.len(),
        (k % w) / 64 <= fonts.len(),
        (k % w) / 64 >= 0,
        forall|i: int|
            0 <= i < scans.len() ==> (#[trigger] scans[i]).width <= 64 && scans[i].height <= 64,
        forall|i: int|
            0 <= i < fonts.len() ==> (#[trigger] fonts[i]).width <= 64 && fonts[i].height <= 64,
    ensures
        with_scans(data, w, scans, fonts, n).len() == data.len(),
        ({
            let c = (k % w) / 64;
            let r = (k / w) / 64;
            let img = if c == 0 {
                scans[r]
            } else {
                fonts[c - 1]
            };
            let dx = k % w - 64 * c - inset(img.width as int);
            let dy = k / w - 64 * r - inset(img.height as int);
            with_scans(data, w, scans, fonts, n)[k] == (if !(0 <= r < n) {
                data[k]
            } else if k % w == 63 {
                100
            } else if 0 <= dx < img.width && 0 <= dy < img.height {
                img.px(dx, dy)
            } else {
                data[k]
            })
        }),
    decreases n,
{
    if n > 0 {
        lemma_scans_shown(data, w, scans, fonts, n - 1, k);
        let d = with_scans(data, w, scans, fonts, n - 1);
        lemma_cell_shown(d, w, scans[n - 1], 0, n - 1, k);
        let lined = with_line(with_cell(d, w, scans[n - 1], 0, n - 1), w, n - 1);
        lemma_fonts_shown(lined, w, fonts, n - 1, fonts.len() as int, k);
    }
}

} // verus!
