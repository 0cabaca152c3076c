//! Taking the images of single characters out of a scanned line.

use vstd::prelude::*;
use vstd::string::*;
use crate::char_index::NORM_H;
use crate::counting::{lemma_tally_same, tally, total};
use crate::features::{indexed, is_indexed};
use crate::float_bits::{exceeds, is_larger};
use crate::glyph::ceil_div;
use crate::raster::{can_resize, in_size, resizable, resize, GrayImage};
use crate::segmentation::{
    is_segmentation, law_uniform_nearest, segment_characters, uniform_boundaries, uniform_cut,
};
use crate::sorting::{goes_before, is_stable_order, key_views, stable_order};
use crate::text::{char_at, chars_of};

verus! {

/// Words with less characters than this are passed over.
pub const MIN_WORD_LEN: usize = 3;

/// How often a character is taken at most.
pub const MAX_PER_CHAR: usize = 3;

/// Rows above and below a word that are searched for its ink.
pub const INK_MARGIN: u32 = 15;

/// The bit pattern of `10.0`, the confidence that a word needs.
pub const WORD_CONFIDENCE: u32 = 0x4120_0000;

/// The bit pattern of `75.0`, the confidence that a character needs.
pub const CHAR_CONFIDENCE: u32 = 0x4296_0000;

/// A word on a page.
pub struct WordPlacement {
    pub text: String,
    pub x_off: u32,
    pub y_off: u32,
    pub width: u32,
    pub height: u32,
    pub confidence: u32,
    /// The first row of its ink, and the row behind the last one.
    pub ink: (u32, u32),
}

/// A character on a page.
#[derive(Clone, Copy, Debug, PartialEq, Eq, Structural)]
pub struct CharBox {
    pub ch: char,
    pub x: u32,
    pub y: u32,
    pub width: u32,
    pub height: u32,
    pub confidence: u32,
}

/// The image of a character.
pub struct CharCrop {
    pub ch: char,
    pub img: GrayImage,
}

/// A rectangle of a page.
#[derive(Clone, Copy, Debug, PartialEq, Eq, Structural)]
pub struct Region {
    pub x: u32,
    pub y: u32,
    pub w: u32,
    pub h: u32,
}

/// A character and the rectangle of the page that shows it.
#[derive(Clone, Copy, Debug, PartialEq, Eq, Structural)]
pub struct CharRegion {
    pub ch: char,
    pub at: Region,
}

// --- Counting characters ---

/// The character at a place is `c`.
pub open spec fn is_char(s: Seq<CharRegion>, c: char) -> spec_fn(int) -> bool {
    |i: int| s[i].ch == c
}

/// How often a character was taken.
pub open spec fn times(s: Seq<CharRegion>, c: char) -> int {
    tally(is_char(s, c), s.len() as int)
}

fn count_char(v: &Vec<CharRegion>, c: char) -> (n: usize)
    ensures
        n == times(v@, c),
{
    let len: usize = v.len();
    let mut n: usize = 0;
    for i in 0..len
        invariant
            len == v@.len(),
            n == tally(is_char(v@, c), i as int),
            n <= i,
    {
        if v[i].ch == c {
            n = n + 1;
        }
    }
    n
}

// --- Scaling ---

/// The region of the page as an image of its own.
pub open spec fn is_cutout(page: GrayImage, at: Region, img: GrayImage) -> bool {
    &&& img.wf()
    &&& img.width == at.w
    &&& img.height == at.h
    &&& forall|x: int, y: int|
        0 <= x < at.w && 0 <= y < at.h ==> #[trigger] img.px(x, y) == page.px(at.x + x, at.y + y)
}

/// Cuts a region out of the page.
pub fn cutout(page: &GrayImage, at: Region) -> (img: GrayImage)
    requires
        page.wf(),
        at.x + at.w <= page.width,
        at.y + at.h <= page.height,
    ensures
        is_cutout(*page, at, img),
{
    page.crop(at.x, at.y, at.w, at.h)
}

/// `out` is the region of the page, cut out and scaled to the height of characters. Its pixels
/// come from the resampler and are left open, unless the size does not change.
pub open spec fn is_scaled(page: GrayImage, at: Region, out: GrayImage) -> bool {
    &&& exists|cut: GrayImage| #[trigger]
        is_cutout(page, at, cut) && in_size(
            cut,
            ceil_div(at.w * NORM_H, at.h as int) as u32,
            NORM_H,
            out,
        )
    &&& out.wf()
    &&& out.height == NORM_H
    &&& out.width == ceil_div(at.w * NORM_H, at.h as int)
    &&& at.h == NORM_H ==> forall|x: int, y: int|
        0 <= x < out.width && 0 <= y < out.height ==> #[trigger] out.px(x, y) == page.px(
            at.x + x,
            at.y + y,
        )
}

/// A region of the page can be scaled to the height of characters.
pub open spec fn region_fits(at: Region) -> bool {
    let w = ceil_div(at.w * NORM_H, at.h as int);
    at.h > 0 && w <= u32::MAX && resizable(at.w, at.h, w as u32, NORM_H)
}

fn can_scale(at: &Region) -> (r: bool)
    ensures
        r == region_fits(*at),
{
    if at.h == 0 {
        return false;
    }
    let q: u64 = (at.w as u64 * 48 + (at.h as u64 - 1)) / at.h as u64;
    assert(q == ceil_div(at.w * NORM_H, at.h as int));
    q <= 0xffff_ffff && can_resize(at.w, at.h, q as u32, NORM_H)
}

/// All regions can be scaled.
pub open spec fn regions_fit(s: Seq<CharRegion>) -> bool {
    forall|i: int| 0 <= i < s.len() ==> region_fits((#[trigger] s[i]).at)
}

fn scaled_region(page: &GrayImage, at: Region) -> (out: GrayImage)
    requires
        page.wf(),
        at.x + at.w <= page.width,
        at.y + at.h <= page.height,
        at.w > 0,
        region_fits(at),
    ensures
        is_scaled(*page, at, out),
{
    let cut: GrayImage = cutout(page, at);
    let num: u64 = (at.w as u64) * (NORM_H as u64);
    let q: u64 = (num + (at.h as u64 - 1)) / at.h as u64;
    assert(q == ceil_div(at.w * NORM_H, at.h as int));
    let out: GrayImage = resize(&cut, q as u32, NORM_H);
    assert(is_cutout(*page, at, cut) && in_size(cut, q as u32, NORM_H, out));
    proof {
        if at.h == NORM_H {
            assert(q == at.w) by {
                vstd::arithmetic::div_mod::lemma_fundamental_div_mod_converse(
                    num + (at.h - 1),
                    at.h as int,
                    at.w as int,
                    at.h - 1,
                );
            }
            assert forall|x: int, y: int| 0 <= x < out.width && 0 <= y < out.height implies #[trigger] out.px(
                x,
                y,
            ) == page.px(at.x + x, at.y + y) by {
                assert(out.px(x, y) == cut.px(x, y));
            }
        }
    }
    out
}

// --- Characters between cuts ---

/// The characters among the first `n` of a word that are taken: those that are indexed,
/// were not taken often enough before, and are at least two columns wide.
pub open spec fn picks(
    prev: Seq<CharRegion>,
    chars: Seq<char>,
    cuts: Seq<u32>,
    word: Region,
    n: int,
) -> Seq<CharRegion>
    decreases n,
{
    if n <= 0 {
        prev
    } else {
        let before = picks(prev, chars, cuts, word, n - 1);
        let c = chars[n - 1];
        let x0 = if cuts[n - 1] < word.w {
            cuts[n - 1]
        } else {
            word.w
        };
        let x1 = if cuts[n] < word.w {
            cuts[n]
        } else {
            word.w
        };
        if indexed().contains(c) && times(before, c) < MAX_PER_CHAR && x1 - x0 >= 2 {
            before.push(
                CharRegion {
                    ch: c,
                    at: Region {
                        x: (word.x + x0) as u32,
                        y: word.y,
                        w: (x1 - x0) as u32,
                        h: word.h,
                    },
                },
            )
        } else {
            before
        }
    }
}

/// How many characters of a word lie between cuts.
pub open spec fn cut_chars(chars: Seq<char>, cuts: Seq<u32>) -> int {
    if chars.len() < cuts.len() {
        chars.len() as int
    } else if cuts.len() == 0 {
        0
    } else {
        cuts.len() - 1
    }
}

/// Each region lies on the page and is not empty.
pub open spec fn on_page(page: GrayImage, s: Seq<CharRegion>) -> bool {
    forall|i: int|
        0 <= i < s.len() ==> {
            let at = (#[trigger] s[i]).at;
            at.x + at.w <= page.width && at.y + at.h <= page.height && at.w > 0 && at.h >= 2
        }
}

/// Takes the characters of a word that lie between cuts.
pub fn extract_chars_from_boundaries(
    chars: &Vec<char>,
    cuts: &Vec<u32>,
    word: Region,
    results: &mut Vec<CharRegion>,
)
    requires
        word.x + word.w <= u32::MAX,
    ensures
        final(results)@ == picks(old(results)@, chars@, cuts@, word, cut_chars(chars@, cuts@)),
{
    let ghost prev = results@;
    let n: usize = if chars.len() < cuts.len() {
        chars.len()
    } else if cuts.len() == 0 {
        0
    } else {
        cuts.len() - 1
    };
    for i in 0..n
        invariant
            n <= chars@.len(),
            n < cuts@.len() || n == 0,
            word.x + word.w <= u32::MAX,
            results@ == picks(prev, chars@, cuts@, word, i as int),
    {
        let c: char = char_at(chars, i);
        let x0: u32 = if cuts[i] < word.w {
            cuts[i]
        } else {
            word.w
        };
        let x1: u32 = if cuts[i + 1] < word.w {
            cuts[i + 1]
        } else {
            word.w
        };
        if is_indexed(c) && count_char(results, c) < MAX_PER_CHAR && x1 > x0 && x1 - x0 >= 2 {
            results.push(
                CharRegion { ch: c, at: Region { x: word.x + x0, y: word.y, w: x1 - x0, h: word.h } },
            );
        }
    }
}

// --- Words ---

/// The rows in which the ink of a word is searched.
pub fn ink_search_rows(w: &WordPlacement, line_height: u32, page_height: u32) -> (r: (u32, u32))
    ensures
        r.0 == (if w.y_off > INK_MARGIN {
            w.y_off - INK_MARGIN
        } else {
            0
        }),
        r.1 == ({
            let end = w.y_off + tall(*w, line_height) + INK_MARGIN;
            if end < page_height {
                end
            } else {
                page_height as int
            }
        }),
{
    let h: u32 = if w.height > line_height {
        w.height
    } else {
        line_height
    };
    let end: u64 = w.y_off as u64 + h as u64 + INK_MARGIN as u64;
    (
        if w.y_off > INK_MARGIN {
            w.y_off - INK_MARGIN
        } else {
            0
        },
        if end < page_height as u64 {
            end as u32
        } else {
            page_height
        },
    )
}

/// The height of a word, at least that of the line.
pub open spec fn tall(w: WordPlacement, line_height: u32) -> int {
    if w.height > line_height {
        w.height as int
    } else {
        line_height as int
    }
}

/// The part of the page that shows a word: its box, extended to its ink, as far as the page
/// goes. There is none for a word that begins outside the page or has less than two rows or
/// columns.
pub open spec fn word_region(w: WordPlacement, line_height: u32, page: GrayImage) -> Option<Region> {
    if w.x_off >= page.width || w.y_off >= page.height {
        None
    } else {
        let top = if w.ink.0 < w.y_off {
            w.ink.0
        } else {
            w.y_off
        };
        let end = w.y_off + tall(w, line_height);
        let bottom = if w.ink.1 > end {
            w.ink.1 as int
        } else {
            end
        };
        let room = page.width - w.x_off;
        let cw = if w.width < room {
            w.width as int
        } else {
            room
        };
        let ch = if bottom - top < page.height - top {
            bottom - top
        } else {
            page.height - top
        };
        if cw < 2 || ch < 2 {
            None
        } else {
            Some(Region { x: w.x_off, y: top, w: cw as u32, h: ch as u32 })
        }
    }
}

fn region_of(w: &WordPlacement, line_height: u32, page: &GrayImage) -> (r: Option<Region>)
    ensures
        r == word_region(*w, line_height, *page),
        r is Some ==> r->0.x + r->0.w <= page.width && r->0.y + r->0.h <= page.height,
{
    if w.x_off >= page.width || w.y_off >= page.height {
        return None;
    }
    let tallness: u32 = if w.height > line_height {
        w.height
    } else {
        line_height
    };
    let top: u32 = if w.ink.0 < w.y_off {
        w.ink.0
    } else {
        w.y_off
    };
    let end: u64 = w.y_off as u64 + tallness as u64;
    let bottom: u64 = if w.ink.1 as u64 > end {
        w.ink.1 as u64
    } else {
        end
    };
    let room: u32 = page.width - w.x_off;
    let cw: u32 = if w.width < room {
        w.width
    } else {
        room
    };
    let rest: u32 = page.height - top;
    let ch: u32 = if bottom - (top as u64) < rest as u64 {
        (bottom - top as u64) as u32
    } else {
        rest
    };
    if cw < 2 || ch < 2 {
        None
    } else {
        Some(Region { x: w.x_off, y: top, w: cw, h: ch })
    }
}

/// The indexed characters among the first `n`.
pub open spec fn indexed_of(chars: Seq<char>, n: int) -> Seq<char>
    decreases n,
{
    if n <= 0 {
        Seq::empty()
    } else if indexed().contains(chars[n - 1]) {
        indexed_of(chars, n - 1).push(chars[n - 1])
    } else {
        indexed_of(chars, n - 1)
    }
}

fn indexed_in(chars: &Vec<char>) -> (r: Vec<char>)
    ensures
        r@ == indexed_of(chars@, chars@.len() as int),
        r@.len() <= chars@.len(),
{
    let n: usize = chars.len();
    let mut r: Vec<char> = Vec::new();
    for i in 0..n
        invariant
            n == chars@.len(),
            r@ == indexed_of(chars@, i as int),
            r@.len() <= i,
    {
        let c: char = char_at(chars, i);
        if is_indexed(c) {
            r.push(c);
        }
    }
    r
}

/// Some character of the word was taken less than twice.
pub open spec fn is_needed(prev: Seq<CharRegion>, chars: Seq<char>) -> bool {
    exists|i: int| 0 <= i < chars.len() && times(prev, #[trigger] chars[i]) < 2
}

fn any_needed(prev: &Vec<CharRegion>, chars: &Vec<char>) -> (r: bool)
    ensures
        r == is_needed(prev@, chars@),
{
    let n: usize = chars.len();
    for i in 0..n
        invariant
            n == chars@.len(),
            forall|k: int| 0 <= k < i ==> times(prev@, #[trigger] chars@[k]) >= 2,
    {
        if count_char(prev, char_at(chars, i)) < 2 {
            assert(times(prev@, chars@[i as int]) < 2);
            return true;
        }
    }
    false
}

/// Where a word is cut: at the cuts that were found, if they give each character its own
/// part, and else evenly.
pub open spec fn used_cuts(found: Seq<u32>, n_chars: int, width: u32) -> Seq<u32> {
    if found.len() == n_chars + 1 {
        found
    } else if n_chars == 0 {
        seq![0u32]
    } else {
        Seq::new((n_chars + 1) as nat, |i: int| uniform_cut(width as int, n_chars, i) as u32)
    }
}

/// `found` are cuts of the region into `n` characters.
pub open spec fn are_cuts(page: GrayImage, at: Region, n: int, found: Seq<u32>) -> bool {
    exists|img: GrayImage| #[trigger] is_cutout(page, at, img) && is_segmentation(img, n, found)
}

/// What is taken after a word, where it was cut at `found`.
pub open spec fn after_word(
    prev: Seq<CharRegion>,
    page: GrayImage,
    line_height: u32,
    w: WordPlacement,
    found: Seq<u32>,
) -> Seq<CharRegion> {
    let chars = w.text@;
    let known = indexed_of(chars, chars.len() as int);
    if known.len() == 0 || !is_needed(prev, known) {
        prev
    } else {
        match word_region(w, line_height, page) {
            None => prev,
            Some(at) => {
                let cuts = used_cuts(found, chars.len() as int, at.w);
                picks(prev, chars, cuts, at, cut_chars(chars, cuts))
            },
        }
    }
}

/// A word that characters are taken from is cut at `found`, into as many parts as it has
/// indexed characters.
pub open spec fn is_cut(
    prev: Seq<CharRegion>,
    page: GrayImage,
    line_height: u32,
    w: WordPlacement,
    found: Seq<u32>,
) -> bool {
    let known = indexed_of(w.text@, w.text@.len() as int);
    known.len() > 0 && is_needed(prev, known) ==> match word_region(w, line_height, page) {
        None => true,
        Some(at) => are_cuts(page, at, known.len() as int, found),
    }
}

/// Takes the characters of a word.
fn take_word(
    page: &GrayImage,
    line_height: u32,
    w: &WordPlacement,
    results: &mut Vec<CharRegion>,
) -> (found: Ghost<Seq<u32>>)
    requires
        page.wf(),
        w.text@.len() < u32::MAX,
    ensures
        final(results)@ == after_word(old(results)@, *page, line_height, *w, found@),
        is_cut(old(results)@, *page, line_height, *w, found@),
{
    let chars: Vec<char> = chars_of(w.text.as_str());
    let known: Vec<char> = indexed_in(&chars);
    if known.len() == 0 || !any_needed(results, &known) {
        return Ghost(Seq::empty());
    }
    match region_of(w, line_height, page) {
        None => Ghost(Seq::empty()),
        Some(at) => {
            let img: GrayImage = cutout(page, at);
            let found: Vec<u32> = segment_characters(&img, known.len());
            assert(are_cuts(*page, at, known@.len() as int, found@));
            if found.len() == chars.len() + 1 {
                extract_chars_from_boundaries(&chars, &found, at, results);
            } else {
                let even: Vec<u32> = uniform_boundaries(at.w, chars.len());
                assert(even@ =~= used_cuts(found@, chars@.len() as int, at.w));
                extract_chars_from_boundaries(&chars, &even, at, results);
            }
            Ghost(found@)
        },
    }
}

proof fn lemma_picks_on_page(
    page: GrayImage,
    prev: Seq<CharRegion>,
    chars: Seq<char>,
    cuts: Seq<u32>,
    word: Region,
    n: int,
)
    requires
        on_page(page, prev),
        word.x + word.w <= page.width,
        word.y + word.h <= page.height,
        word.h >= 2,
        n <= 0 || n < cuts.len(),
    ensures
        on_page(page, picks(prev, chars, cuts, word, n)),
    decreases n,
{
    if n > 0 {
        lemma_picks_on_page(page, prev, chars, cuts, word, n - 1);
    }
}

// --- Lines ---

/// The words that are long enough, among the first `n`.
pub open spec fn long_words(words: Seq<WordPlacement>, n: int) -> Seq<usize>
    decreases n,
{
    if n <= 0 {
        Seq::empty()
    } else if words[n - 1].text@.len() >= MIN_WORD_LEN && words[n - 1].width > 0 {
        long_words(words, n - 1).push((n - 1) as usize)
    } else {
        long_words(words, n - 1)
    }
}

/// The lengths of words as sorting keys; long words come first.
pub open spec fn length_keys(words: Seq<WordPlacement>, at: Seq<usize>) -> Seq<Seq<i64>> {
    Seq::new(at.len(), |k: int| seq![-words[at[k] as int].text@.len() as i64])
}

/// What is taken from the first `k` words in the order `order`, where each is cut as `cuts`
/// says.
pub open spec fn line_regions(
    page: GrayImage,
    line_height: u32,
    words: Seq<WordPlacement>,
    at: Seq<usize>,
    order: Seq<usize>,
    cuts: Seq<Seq<u32>>,
    k: int,
) -> Seq<CharRegion>
    decreases k,
{
    if k <= 0 {
        Seq::empty()
    } else {
        after_word(
            line_regions(page, line_height, words, at, order, cuts, k - 1),
            page,
            line_height,
            words[at[order[k - 1] as int] as int],
            cuts[k - 1],
        )
    }
}

/// The `k`-th word in the order `order` is cut as `cuts` says.
pub open spec fn word_cut_ok(
    page: GrayImage,
    line_height: u32,
    words: Seq<WordPlacement>,
    at: Seq<usize>,
    order: Seq<usize>,
    cuts: Seq<Seq<u32>>,
    k: int,
) -> bool {
    is_cut(
        line_regions(page, line_height, words, at, order, cuts, k),
        page,
        line_height,
        words[at[order[k] as int] as int],
        cuts[k],
    )
}

/// `regions` are taken from the words of a line, the longest words first.
pub open spec fn is_line(
    page: GrayImage,
    line_height: u32,
    words: Seq<WordPlacement>,
    order: Seq<usize>,
    cuts: Seq<Seq<u32>>,
    regions: Seq<CharRegion>,
) -> bool {
    let at = long_words(words, words.len() as int);
    &&& is_stable_order(length_keys(words, at), order)
    &&& cuts.len() == at.len()
    &&& forall|k: int|
        0 <= k < at.len() ==> #[trigger] word_cut_ok(
            page,
            line_height,
            words,
            at,
            order,
            cuts,
            k,
        )
    &&& regions == line_regions(page, line_height, words, at, order, cuts, at.len() as int)
}

/// What is taken from words can be scaled, however they are cut.
pub open spec fn words_fit(page: GrayImage, words: Seq<WordPlacement>, line_height: u32) -> bool {
    forall|order: Seq<usize>, cuts: Seq<Seq<u32>>, regions: Seq<CharRegion>| #[trigger]
        is_line(page, line_height, words, order, cuts, regions) ==> regions_fit(regions)
}

/// The images show the regions.
pub open spec fn are_images(page: GrayImage, regions: Seq<CharRegion>, r: Seq<CharCrop>) -> bool {
    &&& r.len() == regions.len()
    &&& forall|i: int|
        0 <= i < r.len() ==> (#[trigger] r[i]).ch == regions[i].ch && is_scaled(
            page,
            regions[i].at,
            r[i].img,
        )
}

fn long_word_order(words: &Vec<WordPlacement>) -> (r: (Vec<usize>, Vec<usize>))
    requires
        forall|i: int| 0 <= i < words@.len() ==> (#[trigger] words@[i]).text@.len() < u32::MAX,
    ensures
        r.0@ == long_words(words@, words@.len() as int),
        is_stable_order(length_keys(words@, r.0@), r.1@),
        forall|i: int| 0 <= i < r.0@.len() ==> #[trigger] r.0@[i] < words@.len(),
{
    let n: usize = words.len();
    let mut at: Vec<usize> = Vec::new();
    let mut keys: Vec<Vec<i64>> = Vec::new();
    for i in 0..n
        invariant
            n == words@.len(),
            forall|i: int| 0 <= i < words@.len() ==> (#[trigger] words@[i]).text@.len() < u32::MAX,
            at@ == long_words(words@, i as int),
            keys@.len() == at@.len(),
            forall|k: int| 0 <= k < at@.len() ==> #[trigger] at@[k] < i,
            forall|k: int|
                0 <= k < keys@.len() ==> (#[trigger] keys@[k])@
                    == seq![-words@[at@[k] as int].text@.len() as i64],
    {
        let len: usize = chars_of(words[i].text.as_str()).len();
        if len >= MIN_WORD_LEN && words[i].width > 0 {
            assert(words@[i as int].text@.len() < u32::MAX);
            let mut key: Vec<i64> = Vec::new();
            key.push(0 - len as i64);
            assert(key@ =~= seq![-words@[i as int].text@.len() as i64]);
            at.push(i);
            keys.push(key);
        }
    }
    assert(key_views(keys@) =~= length_keys(words@, at@));
    let order: Vec<usize> = stable_order(&keys);
    (at, order)
}

fn images_of(page: &GrayImage, regions: &Vec<CharRegion>) -> (r: Vec<CharCrop>)
    requires
        page.wf(),
        on_page(*page, regions@),
        regions_fit(regions@),
    ensures
        are_images(*page, regions@, r@),
{
    let n: usize = regions.len();
    let mut r: Vec<CharCrop> = Vec::new();
    for i in 0..n
        invariant
            n == regions@.len(),
            page.wf(),
            on_page(*page, regions@),
            regions_fit(regions@),
            r@.len() == i,
            forall|k: int|
                0 <= k < i ==> (#[trigger] r@[k]).ch == regions@[k].ch && is_scaled(
                    *page,
                    regions@[k].at,
                    r@[k].img,
                ),
    {
        let c: CharRegion = regions[i];
        assert(regions@[i as int] == c);
        r.push(CharCrop { ch: c.ch, img: scaled_region(page, c.at) });
    }
    r
}

/// Takes characters from the words of a line by cutting words at the valleys of their
/// column ink.
fn chars_from_words(page: &GrayImage, words: &Vec<WordPlacement>, line_height: u32) -> (r: Vec<
    CharCrop,
>)
    requires
        page.wf(),
        forall|i: int| 0 <= i < words@.len() ==> (#[trigger] words@[i]).text@.len() < u32::MAX,
        words_fit(*page, words@, line_height),
    ensures
        exists|order: Seq<usize>, cuts: Seq<Seq<u32>>, regions: Seq<CharRegion>|
            #![trigger is_line(*page, line_height, words@, order, cuts, regions)]
            is_line(*page, line_height, words@, order, cuts, regions) && are_images(
                *page,
                regions,
                r@,
            ),
{
    let (at, order): (Vec<usize>, Vec<usize>) = long_word_order(words);
    let m: usize = at.len();
    let mut regions: Vec<CharRegion> = Vec::new();
    let mut cuts: Ghost<Seq<Seq<u32>>> = Ghost(Seq::empty());
    for k in 0..m
        invariant
            m == at@.len(),
            m == order@.len(),
            page.wf(),
            forall|i: int| 0 <= i < words@.len() ==> (#[trigger] words@[i]).text@.len() < u32::MAX,
            forall|i: int| 0 <= i < m ==> #[trigger] at@[i] < words@.len(),
            forall|i: int| 0 <= i < m ==> #[trigger] order@[i] < m,
            cuts@.len() == k,
            on_page(*page, regions@),
            regions@ == line_regions(
                *page,
                line_height,
                words@,
                at@,
                order@,
                cuts@,
                k as int,
            ),
            forall|j: int|
                0 <= j < k ==> #[trigger] word_cut_ok(
                    *page,
                    line_height,
                    words@,
                    at@,
                    order@,
                    cuts@,
                    j,
                ),
    {
        let ghost before = regions@;
        let ghost old_cuts = cuts@;
        let w: &WordPlacement = &words[at[order[k]]];
        let found: Ghost<Seq<u32>> = take_word(page, line_height, w, &mut regions);
        proof {
            cuts@ = old_cuts.push(found@);
            lemma_regions_extend(
                *page,
                line_height,
                words@,
                at@,
                order@,
                old_cuts,
                cuts@,
                k as int,
            );
            assert(cuts@[k as int] == found@);
            assert forall|j: int| 0 <= j < k + 1 implies #[trigger] word_cut_ok(
                *page,
                line_height,
                words@,
                at@,
                order@,
                cuts@,
                j,
            ) by {
                if j < k {
                    assert(word_cut_ok(*page, line_height, words@, at@, order@, old_cuts, j));
                    lemma_regions_extend(
                        *page,
                        line_height,
                        words@,
                        at@,
                        order@,
                        old_cuts,
                        cuts@,
                        j,
                    );
                }
            }
            match word_region(*w, line_height, *page) {
                Some(region) => {
                    let chars = w.text@;
                    let cs = used_cuts(found@, chars.len() as int, region.w);
                    lemma_picks_on_page(
                        *page,
                        before,
                        chars,
                        cs,
                        region,
                        cut_chars(chars, cs),
                    );
                },
                None => {},
            }
        }
    }
    assert(is_line(*page, line_height, words@, order@, cuts@, regions@));
    images_of(page, &regions)
}

/// Cuts of later words do not matter.
proof fn lemma_regions_extend(
    page: GrayImage,
    line_height: u32,
    words: Seq<WordPlacement>,
    at: Seq<usize>,
    order: Seq<usize>,
    a: Seq<Seq<u32>>,
    b: Seq<Seq<u32>>,
    k: int,
)
    requires
        k <= a.len(),
        k <= b.len(),
        forall|i: int| 0 <= i < k ==> a[i] == b[i],
    ensures
        line_regions(page, line_height, words, at, order, a, k) == line_regions(
            page,
            line_height,
            words,
            at,
            order,
            b,
            k,
        ),
    decreases k,
{
    if k > 0 {
        lemma_regions_extend(page, line_height, words, at, order, a, b, k - 1);
    }
}

// --- Characters that were located before ---

/// The middle of a character box lies in a word that was recognised with some confidence;
/// above and below the word a quarter of the line height is allowed for.
pub open spec fn in_word(cb: CharBox, w: WordPlacement, line_height: u32) -> bool {
    let cx = cb.x + cb.width / 2;
    let cy = cb.y + cb.height / 2;
    let slack = line_height / 4;
    &&& !exceeds(WORD_CONFIDENCE, w.confidence)
    &&& w.x_off <= cx <= w.x_off + w.width
    &&& w.y_off <= cy + slack
    &&& cy <= w.y_off + tall(w, line_height) + slack
}

/// The middle of a character box lies in a word of the line.
pub open spec fn on_line(cb: CharBox, words: Seq<WordPlacement>, line_height: u32) -> bool {
    exists|i: int| 0 <= i < words.len() && in_word(cb, #[trigger] words[i], line_height)
}

fn any_word_holds(cb: &CharBox, words: &Vec<WordPlacement>, line_height: u32) -> (r: bool)
    ensures
        r == on_line(*cb, words@, line_height),
{
    let cx: u64 = cb.x as u64 + (cb.width / 2) as u64;
    let cy: u64 = cb.y as u64 + (cb.height / 2) as u64;
    let slack: u64 = (line_height / 4) as u64;
    let n: usize = words.len();
    for i in 0..n
        invariant
            n == words@.len(),
            cx == cb.x + cb.width / 2,
            cy == cb.y + cb.height / 2,
            slack == line_height / 4,
            forall|k: int| 0 <= k < i ==> !in_word(*cb, #[trigger] words@[k], line_height),
    {
        let w: &WordPlacement = &words[i];
        let tallness: u32 = if w.height > line_height {
            w.height
        } else {
            line_height
        };
        let inside: bool = !is_larger(WORD_CONFIDENCE, w.confidence) && w.x_off as u64 <= cx
            && cx <= w.x_off as u64 + w.width as u64 && w.y_off as u64 <= cy + slack && cy
            <= w.y_off as u64 + tallness as u64 + slack;
        assert(inside == in_word(*cb, words@[i as int], line_height));
        if inside {
            return true;
        }
    }
    false
}

/// The part of the page that a character box covers, if the character is taken from it: the
/// box lies on the line and is known with confidence, the character is indexed, and what is
/// left of the box on the page has at least two rows and columns and is not too slim.
pub open spec fn box_region(
    cb: CharBox,
    words: Seq<WordPlacement>,
    line_height: u32,
    page: GrayImage,
) -> Option<Region> {
    let x = if cb.x < page.width {
        cb.x as int
    } else if page.width > 0 {
        page.width - 1
    } else {
        0
    };
    let y = if cb.y < page.height {
        cb.y as int
    } else if page.height > 0 {
        page.height - 1
    } else {
        0
    };
    let w = if cb.width < page.width - x {
        cb.width as int
    } else {
        page.width - x
    };
    let h = if cb.height < page.height - y {
        cb.height as int
    } else {
        page.height - y
    };
    if cb.width < 2 || cb.height < 2 || !on_line(cb, words, line_height) || exceeds(
        CHAR_CONFIDENCE,
        cb.confidence,
    ) || !indexed().contains(cb.ch) || w < 2 || h < 2 || 20 * w < 3 * h {
        None
    } else {
        Some(Region { x: x as u32, y: y as u32, w: w as u32, h: h as u32 })
    }
}

fn region_of_box(cb: &CharBox, words: &Vec<WordPlacement>, line_height: u32, page: &GrayImage) -> (r:
    Option<Region>)
    ensures
        r == box_region(*cb, words@, line_height, *page),
        r is Some ==> r->0.x + r->0.w <= page.width && r->0.y + r->0.h <= page.height && r->0.w > 0
            && r->0.h > 0,
{
    if cb.width < 2 || cb.height < 2 || !any_word_holds(cb, words, line_height) {
        return None;
    }
    if is_larger(CHAR_CONFIDENCE, cb.confidence) || !is_indexed(cb.ch) {
        return None;
    }
    let x: u32 = if cb.x < page.width {
        cb.x
    } else if page.width > 0 {
        page.width - 1
    } else {
        0
    };
    let y: u32 = if cb.y < page.height {
        cb.y
    } else if page.height > 0 {
        page.height - 1
    } else {
        0
    };
    let w: u32 = if cb.width < page.width - x {
        cb.width
    } else {
        page.width - x
    };
    let h: u32 = if cb.height < page.height - y {
        cb.height
    } else {
        page.height - y
    };
    if w < 2 || h < 2 || 20 * (w as u64) < 3 * (h as u64) {
        return None;
    }
    Some(Region { x, y, w, h })
}

/// The value of pixel `i`.
pub open spec fn value(d: Seq<u8>) -> spec_fn(int) -> int {
    |i: int| d[i] as int
}

/// The square of pixel `i`.
pub open spec fn square(d: Seq<u8>) -> spec_fn(int) -> int {
    |i: int| d[i] * d[i]
}

/// An image looks like text: it has ink and paper, and its pixels deviate by 75 or more from
/// their mean.
pub open spec fn looks_like_text(d: Seq<u8>) -> bool {
    let n = d.len() as int;
    let s = total(value(d), n);
    &&& exists|i: int| 0 <= i < n && #[trigger] d[i] <= 20
    &&& exists|i: int| 0 <= i < n && #[trigger] d[i] >= 235
    &&& n * total(square(d), n) - s * s >= 5625 * (n * n)
}

/// Whether an image looks like text.
pub fn is_text_crop(img: &GrayImage) -> (r: bool)
    requires
        img.data@.len() * 65025 <= u64::MAX,
    ensures
        r == looks_like_text(img.data@),
{
    let n: usize = img.data.len();
    let mut dark: bool = false;
    let mut light: bool = false;
    let mut s: u64 = 0;
    let mut q: u64 = 0;
    for i in 0..n
        invariant
            n == img.data@.len(),
            n * 65025 <= u64::MAX,
            dark <==> exists|k: int| 0 <= k < i && #[trigger] img.data@[k] <= 20,
            light <==> exists|k: int| 0 <= k < i && #[trigger] img.data@[k] >= 235,
            s == total(value(img.data@), i as int),
            q == total(square(img.data@), i as int),
            s <= 255 * i,
            q <= 65025 * i,
    {
        let p: u8 = img.data[i];
        assert(img.data@[i as int] == p);
        if p <= 20 {
            dark = true;
        }
        if p >= 235 {
            light = true;
        }
        assert(0 <= p * p <= 65025) by (nonlinear_arith)
            requires
                0 <= p <= 255,
        ;
        s = s + p as u64;
        q = q + (p as u64) * (p as u64);
    }
    let n1: u128 = n as u128;
    let s1: u128 = s as u128;
    let q1: u128 = q as u128;
    assert(0 <= n1 * q1 <= 0x2_0000_0000_0000 * 0x1_0000_0000_0000_0000) by (nonlinear_arith)
        requires
            0 <= n1 <= 0x2_0000_0000_0000,
            0 <= q1 <= 0x1_0000_0000_0000_0000,
    ;
    assert(0 <= s1 * s1 <= 0x200_0000_0000_0000 * 0x200_0000_0000_0000) by (nonlinear_arith)
        requires
            0 <= s1 <= 0x200_0000_0000_0000,
    ;
    assert(0 <= n1 * n1 <= 0x2_0000_0000_0000 * 0x2_0000_0000_0000) by (nonlinear_arith)
        requires
            0 <= n1 <= 0x2_0000_0000_0000,
    ;
    dark && light && n1 * q1 >= 5625 * (n1 * n1) + s1 * s1
}

/// What is taken from the first `n` boxes, given the scaled image of each: a character is
/// taken as long as it was not taken often enough before and its image looks like text.
pub open spec fn kept_boxes(
    boxes: Seq<CharBox>,
    imgs: Seq<GrayImage>,
    words: Seq<WordPlacement>,
    line_height: u32,
    page: GrayImage,
    n: int,
) -> Seq<CharRegion>
    decreases n,
{
    if n <= 0 {
        Seq::empty()
    } else {
        let before = kept_boxes(boxes, imgs, words, line_height, page, n - 1);
        let cb = boxes[n - 1];
        match box_region(cb, words, line_height, page) {
            None => before,
            Some(at) => if times(before, cb.ch) < MAX_PER_CHAR && looks_like_text(
                imgs[n - 1].data@,
            ) {
                before.push(CharRegion { ch: cb.ch, at })
            } else {
                before
            },
        }
    }
}

/// Box `i` is taken.
pub open spec fn is_kept(
    boxes: Seq<CharBox>,
    imgs: Seq<GrayImage>,
    words: Seq<WordPlacement>,
    line_height: u32,
    page: GrayImage,
    i: int,
) -> bool {
    &&& box_region(boxes[i], words, line_height, page) is Some
    &&& times(kept_boxes(boxes, imgs, words, line_height, page, i), boxes[i].ch) < MAX_PER_CHAR
    &&& looks_like_text(imgs[i].data@)
}

/// Which of the first `n` boxes are taken.
pub open spec fn kept_numbers(
    boxes: Seq<CharBox>,
    imgs: Seq<GrayImage>,
    words: Seq<WordPlacement>,
    line_height: u32,
    page: GrayImage,
    n: int,
) -> Seq<int>
    decreases n,
{
    if n <= 0 {
        Seq::empty()
    } else if is_kept(boxes, imgs, words, line_height, page, n - 1) {
        kept_numbers(boxes, imgs, words, line_height, page, n - 1).push(n - 1)
    } else {
        kept_numbers(boxes, imgs, words, line_height, page, n - 1)
    }
}

/// The images are those of the boxes that are taken.
pub open spec fn are_kept_images(
    boxes: Seq<CharBox>,
    imgs: Seq<GrayImage>,
    words: Seq<WordPlacement>,
    line_height: u32,
    page: GrayImage,
    n: int,
    r: Seq<CharCrop>,
) -> bool {
    let at = kept_numbers(boxes, imgs, words, line_height, page, n);
    &&& r.len() == at.len()
    &&& forall|j: int|
        0 <= j < r.len() ==> (#[trigger] r[j]).img == imgs[at[j]] && r[j].ch == boxes[at[j]].ch
            && looks_like_text(r[j].img.data@)
}

/// Images of later boxes do not matter.
proof fn lemma_kept_extend(
    boxes: Seq<CharBox>,
    a: Seq<GrayImage>,
    b: Seq<GrayImage>,
    words: Seq<WordPlacement>,
    line_height: u32,
    page: GrayImage,
    n: int,
)
    requires
        n <= a.len(),
        n <= b.len(),
        forall|i: int| 0 <= i < n ==> a[i] == b[i],
    ensures
        kept_boxes(boxes, a, words, line_height, page, n) == kept_boxes(
            boxes,
            b,
            words,
            line_height,
            page,
            n,
        ),
        kept_numbers(boxes, a, words, line_height, page, n) == kept_numbers(
            boxes,
            b,
            words,
            line_height,
            page,
            n,
        ),
    decreases n,
{
    if n > 0 {
        lemma_kept_extend(boxes, a, b, words, line_height, page, n - 1);
    }
}

proof fn lemma_kept_numbers(
    boxes: Seq<CharBox>,
    imgs: Seq<GrayImage>,
    words: Seq<WordPlacement>,
    line_height: u32,
    page: GrayImage,
    n: int,
)
    ensures
        forall|j: int|
            0 <= j < kept_numbers(boxes, imgs, words, line_height, page, n).len() ==> 0
                <= #[trigger] kept_numbers(boxes, imgs, words, line_height, page, n)[j] < n,
    decreases n,
{
    if n > 0 {
        lemma_kept_numbers(boxes, imgs, words, line_height, page, n - 1);
        let before = kept_numbers(boxes, imgs, words, line_height, page, n - 1);
        let at = kept_numbers(boxes, imgs, words, line_height, page, n);
        assert forall|j: int| 0 <= j < at.len() implies 0 <= #[trigger] at[j] < n by {
            if j < before.len() {
                assert(at[j] == before[j]);
            }
        }
    }
}

/// What is taken from boxes can be scaled.
pub open spec fn boxes_fit(
    page: GrayImage,
    words: Seq<WordPlacement>,
    line_height: u32,
    boxes: Seq<CharBox>,
) -> bool {
    forall|i: int|
        0 <= i < boxes.len() ==> (box_region(#[trigger] boxes[i], words, line_height, page) matches
            Some(at) ==> region_fits(at))
}

/// Each box that could be taken has its scaled image.
pub open spec fn are_box_images(
    boxes: Seq<CharBox>,
    imgs: Seq<GrayImage>,
    words: Seq<WordPlacement>,
    line_height: u32,
    page: GrayImage,
) -> bool {
    &&& imgs.len() == boxes.len()
    &&& forall|i: int|
        0 <= i < boxes.len() && box_region(#[trigger] boxes[i], words, line_height, page) is Some
            && times(kept_boxes(boxes, imgs, words, line_height, page, i), boxes[i].ch)
            < MAX_PER_CHAR ==> is_scaled(
            page,
            box_region(boxes[i], words, line_height, page)->0,
            imgs[i],
        )
}

/// Where a box is taken from, as long as its character was not taken often enough before.
fn wanted_region(
    cb: &CharBox,
    words: &Vec<WordPlacement>,
    line_height: u32,
    page: &GrayImage,
    kept: &Vec<CharRegion>,
) -> (r: Option<Region>)
    ensures
        r == (if times(kept@, cb.ch) < MAX_PER_CHAR {
            box_region(*cb, words@, line_height, *page)
        } else {
            None
        }),
        r is Some ==> r->0.x + r->0.w <= page.width && r->0.y + r->0.h <= page.height && r->0.w > 0
            && r->0.h > 0,
{
    match region_of_box(cb, words, line_height, page) {
        Some(at) => if count_char(kept, cb.ch) < MAX_PER_CHAR {
            Some(at)
        } else {
            None
        },
        None => None,
    }
}

/// Which regions of the page are taken, given the scaled image of each box.
pub fn keep_boxes(
    page: &GrayImage,
    words: &Vec<WordPlacement>,
    line_height: u32,
    boxes: &Vec<CharBox>,
    imgs: &Vec<GrayImage>,
) -> (r: Vec<CharRegion>)
    requires
        imgs@.len() == boxes@.len(),
        forall|i: int|
            0 <= i < imgs@.len() ==> (#[trigger] imgs@[i]).data@.len() * 65025 <= u64::MAX,
    ensures
        r@ == kept_boxes(boxes@, imgs@, words@, line_height, *page, boxes@.len() as int),
{
    let n: usize = boxes.len();
    let mut r: Vec<CharRegion> = Vec::new();
    for i in 0..n
        invariant
            n == boxes@.len(),
            n == imgs@.len(),
            forall|i: int|
                0 <= i < imgs@.len() ==> (#[trigger] imgs@[i]).data@.len() * 65025 <= u64::MAX,
            r@ == kept_boxes(boxes@, imgs@, words@, line_height, *page, i as int),
    {
        let cb: CharBox = boxes[i];
        match wanted_region(&cb, words, line_height, page, &r) {
            None => {},
            Some(at) => {
                assert(imgs@[i as int].data@.len() * 65025 <= u64::MAX);
                if is_text_crop(&imgs[i]) {
                    r.push(CharRegion { ch: cb.ch, at });
                }
            },
        }
    }
    r
}

/// Takes characters from boxes that were located before.
fn extract_line_chars_from_charboxes(
    page: &GrayImage,
    words: &Vec<WordPlacement>,
    line_height: u32,
    boxes: &Vec<CharBox>,
) -> (r: Vec<CharCrop>)
    requires
        page.wf(),
        boxes_fit(*page, words@, line_height, boxes@),
    ensures
        exists|imgs: Seq<GrayImage>| #[trigger]
            are_box_images(boxes@, imgs, words@, line_height, *page) && are_images(
                *page,
                kept_boxes(boxes@, imgs, words@, line_height, *page, boxes@.len() as int),
                r@,
            ) && are_kept_images(
                boxes@,
                imgs,
                words@,
                line_height,
                *page,
                boxes@.len() as int,
                r@,
            ),
{
    let n: usize = boxes.len();
    let mut regions: Vec<CharRegion> = Vec::new();
    let mut out: Vec<CharCrop> = Vec::new();
    let mut imgs: Ghost<Seq<GrayImage>> = Ghost(Seq::empty());
    for i in 0..n
        invariant
            n == boxes@.len(),
            page.wf(),
            boxes_fit(*page, words@, line_height, boxes@),
            imgs@.len() == i,
            regions@ == kept_boxes(boxes@, imgs@, words@, line_height, *page, i as int),
            forall|k: int|
                0 <= k < i && box_region(#[trigger] boxes@[k], words@, line_height, *page) is Some
                    && times(
                    kept_boxes(boxes@, imgs@, words@, line_height, *page, k),
                    boxes@[k].ch,
                ) < MAX_PER_CHAR ==> is_scaled(
                    *page,
                    box_region(boxes@[k], words@, line_height, *page)->0,
                    imgs@[k],
                ),
            are_images(*page, regions@, out@),
            are_kept_images(boxes@, imgs@, words@, line_height, *page, i as int, out@),
    {
        let cb: CharBox = boxes[i];
        let ghost old_out = out@;
        let ghost old_imgs = imgs@;
        let ghost mut here: GrayImage = arbitrary();
        match wanted_region(&cb, words, line_height, page, &regions) {
            None => {},
            Some(at) => {
                assert(box_region(boxes@[i as int], words@, line_height, *page) == Some(at));
                let img: GrayImage = scaled_region(page, at);
                proof {
                    here = img;
                }
                if is_text_crop(&img) {
                    regions.push(CharRegion { ch: cb.ch, at });
                    out.push(CharCrop { ch: cb.ch, img });
                }
            },
        }
        proof {
            imgs@ = old_imgs.push(here);
            lemma_kept_extend(boxes@, old_imgs, imgs@, words@, line_height, *page, i as int);
            assert(imgs@[i as int] == here);
            assert forall|k: int| 0 <= k <= i implies kept_boxes(
                boxes@,
                old_imgs,
                words@,
                line_height,
                *page,
                k,
            ) == #[trigger] kept_boxes(boxes@, imgs@, words@, line_height, *page, k) by {
                lemma_kept_extend(boxes@, old_imgs, imgs@, words@, line_height, *page, k);
            }
            lemma_kept_numbers(boxes@, old_imgs, words@, line_height, *page, i as int);
            let at = kept_numbers(boxes@, old_imgs, words@, line_height, *page, i as int);
            let now = kept_numbers(boxes@, imgs@, words@, line_height, *page, i + 1);
            assert forall|j: int| 0 <= j < out@.len() implies (#[trigger] out@[j]).img
                == imgs@[now[j]] && out@[j].ch == boxes@[now[j]].ch && looks_like_text(
                out@[j].img.data@,
            ) by {
                if j < old_out.len() {
                    assert(out@[j] == old_out[j]);
                    assert(now[j] == at[j]);
                }
            }
        }
    }
    assert(are_box_images(boxes@, imgs@, words@, line_height, *page));
    out
}

/// What is taken from a line can be scaled.
pub open spec fn line_fits(
    page: GrayImage,
    words: Seq<WordPlacement>,
    line_height: u32,
    boxes: Seq<CharBox>,
) -> bool {
    if words.len() == 0 || line_height == 0 {
        true
    } else if boxes.len() > 0 {
        boxes_fit(page, words, line_height, boxes)
    } else {
        words_fit(page, words, line_height)
    }
}

/// Each word as a whole can be scaled.
pub open spec fn whole_words_fit(
    page: GrayImage,
    words: Seq<WordPlacement>,
    line_height: u32,
) -> bool {
    forall|i: int|
        0 <= i < words.len() ==> (word_region(#[trigger] words[i], line_height, page) matches
            Some(at) ==> region_fits(at))
}

/// A part of a region that has its height can be scaled if the region can.
proof fn lemma_part_fits(all: Region, part: Region)
    requires
        region_fits(all),
        part.h == all.h,
        0 < part.w <= all.w,
    ensures
        region_fits(part),
{
    let h = all.h as int;
    let a = all.w * NORM_H + h - 1;
    let b = part.w * NORM_H + h - 1;
    let qa = ceil_div(all.w * NORM_H, h);
    let qb = ceil_div(part.w * NORM_H, h);
    assert(qb <= qa && 0 <= qb) by {
        vstd::arithmetic::div_mod::lemma_div_is_ordered(b, a, h);
        vstd::arithmetic::div_mod::lemma_div_pos_is_pos(b, h);
    }
    assert(qb * NORM_H <= qa * NORM_H);
    if qa == all.w && h == NORM_H {
        assert(qb == part.w) by {
            vstd::arithmetic::div_mod::lemma_fundamental_div_mod_converse(b, h, part.w as int, h - 1);
        }
    }
}

proof fn lemma_picks_fit(
    prev: Seq<CharRegion>,
    chars: Seq<char>,
    cuts: Seq<u32>,
    word: Region,
    n: int,
)
    requires
        regions_fit(prev),
        region_fits(word),
    ensures
        regions_fit(picks(prev, chars, cuts, word, n)),
    decreases n,
{
    if n > 0 {
        lemma_picks_fit(prev, chars, cuts, word, n - 1);
        let before = picks(prev, chars, cuts, word, n - 1);
        let after = picks(prev, chars, cuts, word, n);
        if after.len() > before.len() {
            lemma_part_fits(word, after.last().at);
            assert forall|i: int| 0 <= i < after.len() implies region_fits(
                (#[trigger] after[i]).at,
            ) by {
                if i < before.len() {
                    assert(after[i] == before[i]);
                }
            }
        }
    }
}

proof fn lemma_line_fits(
    page: GrayImage,
    line_height: u32,
    words: Seq<WordPlacement>,
    at: Seq<usize>,
    order: Seq<usize>,
    cuts: Seq<Seq<u32>>,
    k: int,
)
    requires
        whole_words_fit(page, words, line_height),
        k <= order.len(),
        forall|i: int| 0 <= i < order.len() ==> #[trigger] order[i] < at.len(),
        forall|i: int| 0 <= i < at.len() ==> #[trigger] at[i] < words.len(),
    ensures
        regions_fit(line_regions(page, line_height, words, at, order, cuts, k)),
    decreases k,
{
    if k > 0 {
        lemma_line_fits(page, line_height, words, at, order, cuts, k - 1);
        assert(order[k - 1] < at.len());
        assert(at[order[k - 1] as int] < words.len());
        let w = words[at[order[k - 1] as int] as int];
        match word_region(w, line_height, page) {
            Some(region) => {
                let used = used_cuts(cuts[k - 1], w.text@.len() as int, region.w);
                lemma_picks_fit(
                    line_regions(page, line_height, words, at, order, cuts, k - 1),
                    w.text@,
                    used,
                    region,
                    cut_chars(w.text@, used),
                );
            },
            None => {},
        }
    }
}

proof fn lemma_long_words(words: Seq<WordPlacement>, n: int)
    requires
        0 <= n <= words.len(),
        words.len() <= usize::MAX,
    ensures
        forall|i: int|
            0 <= i < long_words(words, n).len() ==> #[trigger] long_words(words, n)[i] < n,
    decreases n,
{
    if n > 0 {
        lemma_long_words(words, n - 1);
        let before = long_words(words, n - 1);
        let after = long_words(words, n);
        assert forall|i: int| 0 <= i < after.len() implies #[trigger] after[i] < n by {
            if i < before.len() {
                assert(after[i] == before[i]);
            }
        }
    }
}

/// Where each word as a whole can be scaled, so can its characters, however the words are cut.
pub proof fn law_words_fit(page: GrayImage, words: Seq<WordPlacement>, line_height: u32)
    requires
        words.len() <= usize::MAX,
        whole_words_fit(page, words, line_height),
    ensures
        words_fit(page, words, line_height),
{
    let at = long_words(words, words.len() as int);
    lemma_long_words(words, words.len() as int);
    assert forall|order: Seq<usize>, cuts: Seq<Seq<u32>>, regions: Seq<CharRegion>| #[trigger]
        is_line(page, line_height, words, order, cuts, regions) implies regions_fit(regions) by {
        lemma_line_fits(page, line_height, words, at, order, cuts, at.len() as int);
    }
}

/// Whether what is taken from a line can be scaled. Words count as a whole.
pub fn can_extract(
    page: &GrayImage,
    words: &Vec<WordPlacement>,
    line_height: u32,
    boxes: &Vec<CharBox>,
) -> (r: bool)
    ensures
        r == (if words@.len() == 0 || line_height == 0 {
            true
        } else if boxes@.len() > 0 {
            boxes_fit(*page, words@, line_height, boxes@)
        } else {
            whole_words_fit(*page, words@, line_height)
        }),
        r ==> line_fits(*page, words@, line_height, boxes@),
{
    if words.len() == 0 || line_height == 0 {
        return true;
    }
    if boxes.len() > 0 {
        let n: usize = boxes.len();
        for i in 0..n
            invariant
                n == boxes@.len(),
                n > 0,
                words@.len() > 0,
                line_height > 0,
                forall|k: int|
                    0 <= k < i ==> (box_region(#[trigger] boxes@[k], words@, line_height, *page)
                        matches Some(at) ==> region_fits(at)),
        {
            match region_of_box(&boxes[i], words, line_height, page) {
                None => {},
                Some(at) => {
                    if !can_scale(&at) {
                        assert(box_region(boxes@[i as int], words@, line_height, *page) == Some(
                            at,
                        ));
                        return false;
                    }
                },
            }
        }
        return true;
    }
    let n: usize = words.len();
    for i in 0..n
        invariant
            n == words@.len(),
            n > 0,
            line_height > 0,
            boxes@.len() == 0,
            forall|k: int|
                0 <= k < i ==> (word_region(#[trigger] words@[k], line_height, *page) matches Some(
                    at,
                ) ==> region_fits(at)),
    {
        match region_of(&words[i], line_height, page) {
            None => {},
            Some(at) => {
                if !can_scale(&at) {
                    assert(word_region(words@[i as int], line_height, *page) == Some(at));
                    return false;
                }
            },
        }
    }
    proof {
        law_words_fit(*page, words@, line_height);
    }
    true
}

/// Takes the images of characters from a line: from character boxes where there are any on
/// the page, and else by cutting the words. Without words, or with no height, there are
/// none.
pub fn extract_line_chars(
    page: &GrayImage,
    words: &Vec<WordPlacement>,
    line_height: u32,
    boxes: &Vec<CharBox>,
) -> (r: Vec<CharCrop>)
    requires
        page.wf(),
        forall|i: int| 0 <= i < words@.len() ==> (#[trigger] words@[i]).text@.len() < u32::MAX,
        line_fits(*page, words@, line_height, boxes@),
    ensures
        words@.len() == 0 || line_height == 0 ==> r@.len() == 0,
        words@.len() > 0 && line_height > 0 && boxes@.len() == 0 ==> exists|
            order: Seq<usize>,
            cuts: Seq<Seq<u32>>,
            regions: Seq<CharRegion>,
        |
            #![trigger is_line(*page, line_height, words@, order, cuts, regions)]
            is_line(*page, line_height, words@, order, cuts, regions) && are_images(
                *page,
                regions,
                r@,
            ),
        words@.len() > 0 && line_height > 0 && boxes@.len() > 0 ==> exists|imgs: Seq<GrayImage>|
            #[trigger]
            are_box_images(boxes@, imgs, words@, line_height, *page) && are_images(
                *page,
                kept_boxes(boxes@, imgs, words@, line_height, *page, boxes@.len() as int),
                r@,
            ) && are_kept_images(
                boxes@,
                imgs,
                words@,
                line_height,
                *page,
                boxes@.len() as int,
                r@,
            ),
{
    if words.len() == 0 || line_height == 0 {
        return Vec::new();
    }
    if boxes.len() > 0 {
        extract_line_chars_from_charboxes(page, words, line_height, boxes)
    } else {
        chars_from_words(page, words, line_height)
    }
}

/// No character is taken more often than allowed.
pub proof fn law_boxes_limited(
    boxes: Seq<CharBox>,
    imgs: Seq<GrayImage>,
    words: Seq<WordPlacement>,
    line_height: u32,
    page: GrayImage,
    n: int,
    c: char,
)
    requires
        0 <= n <= boxes.len(),
    ensures
        times(kept_boxes(boxes, imgs, words, line_height, page, n), c) <= MAX_PER_CHAR,
    decreases n,
{
    if n > 0 {
        law_boxes_limited(boxes, imgs, words, line_height, page, n - 1, c);
        let before = kept_boxes(boxes, imgs, words, line_height, page, n - 1);
        let after = kept_boxes(boxes, imgs, words, line_height, page, n);
        if after.len() > before.len() {
            lemma_tally_same(is_char(before, c), is_char(after, c), before.len() as int);
        }
    }
}

/// No character is taken more often than allowed.
pub proof fn law_picks_limited(
    prev: Seq<CharRegion>,
    chars: Seq<char>,
    cuts: Seq<u32>,
    word: Region,
    n: int,
    c: char,
)
    requires
        0 <= n <= chars.len(),
        times(prev, c) <= MAX_PER_CHAR,
    ensures
        times(picks(prev, chars, cuts, word, n), c) <= MAX_PER_CHAR,
    decreases n,
{
    if n > 0 {
        law_picks_limited(prev, chars, cuts, word, n - 1, c);
        let before = picks(prev, chars, cuts, word, n - 1);
        let after = picks(prev, chars, cuts, word, n);
        if after.len() > before.len() {
            lemma_tally_same(is_char(before, c), is_char(after, c), before.len() as int);
        }
    }
}

/// However the words of a line are cut, no character is taken from them more often than
/// allowed.
pub proof fn law_line_limited(
    page: GrayImage,
    line_height: u32,
    words: Seq<WordPlacement>,
    at: Seq<usize>,
    order: Seq<usize>,
    cuts: Seq<Seq<u32>>,
    k: int,
    c: char,
)
    ensures
        times(line_regions(page, line_height, words, at, order, cuts, k), c) <= MAX_PER_CHAR,
    decreases k,
{
    if k > 0 {
        law_line_limited(page, line_height, words, at, order, cuts, k - 1, c);
        let before = line_regions(page, line_height, words, at, order, cuts, k - 1);
        let w = words[at[order[k - 1] as int] as int];
        match word_region(w, line_height, page) {
            Some(region) => {
                let used = used_cuts(cuts[k - 1], w.text@.len() as int, region.w);
                law_picks_limited(before, w.text@, used, region, cut_chars(w.text@, used), c);
            },
            None => {},
        }
    }
}

// --- What is taken ---

/// A word shows the pixels of the page from its left edge on, as far as it is wide. Down the
/// page it begins at its box or, if that is higher, at its ink, and goes on to the end of its
/// box, of a box as high as the line, or of its ink, whichever is lowest. A word that begins
/// outside the page, or of which less than two rows or columns are on it, shows nothing.
pub proof fn law_word_region(w: WordPlacement, line_height: u32, page: GrayImage, x: int, y: int)
    requires
        0 <= x < page.width,
        0 <= y < page.height,
    ensures
        match word_region(w, line_height, page) {
            Some(r) => {
                &&& r.x + r.w <= page.width && r.y + r.h <= page.height && r.w >= 2 && r.h >= 2
                &&& r.x <= x < r.x + r.w && r.y <= y < r.y + r.h <==> w.x_off <= x < w.x_off
                    + w.width && (y >= w.y_off || y >= w.ink.0) && (y < w.y_off + w.height || y
                    < w.y_off + line_height || y < w.ink.1)
            },
            None => {
                ||| w.x_off >= page.width
                ||| w.y_off >= page.height
                ||| w.width < 2
                ||| w.x_off + 1 >= page.width
                ||| (w.y_off + 1 >= page.height && w.ink.0 >= w.y_off)
                ||| (w.height < 2 && line_height < 2 && w.ink.0 >= w.y_off && w.ink.1 < w.y_off + 2)
                ||| (w.height == 0 && line_height == 0 && w.ink.1 <= w.y_off && w.ink.0 + 1
                    >= w.y_off)
            },
        },
{
}

/// A character of a word is taken exactly if it is indexed, was taken less than three times
/// before, and at least two columns of the word lie between its cuts. It is taken with all
/// rows of the word and the columns between its cuts, as far as the word goes.
pub proof fn law_picks(
    prev: Seq<CharRegion>,
    chars: Seq<char>,
    cuts: Seq<u32>,
    word: Region,
    n: int,
)
    requires
        0 <= n < chars.len(),
        n + 1 < cuts.len(),
        word.x + word.w <= u32::MAX,
    ensures
        picks(prev, chars, cuts, word, 0) == prev,
        ({
            let before = picks(prev, chars, cuts, word, n);
            let after = picks(prev, chars, cuts, word, n + 1);
            let c = chars[n];
            let often = tally(|i: int| before[i].ch == c, before.len() as int) >= 3;
            if indexed().contains(c) && !often && cuts[n] + 2 <= cuts[n + 1] && cuts[n] + 2
                <= word.w {
                &&& after.len() == before.len() + 1
                &&& after.drop_last() == before
                &&& after.last().ch == c
                &&& after.last().at.x == word.x + cuts[n]
                &&& after.last().at.y == word.y && after.last().at.h == word.h
                &&& cuts[n + 1] <= word.w ==> after.last().at.x + after.last().at.w == word.x
                    + cuts[n + 1]
                &&& cuts[n + 1] > word.w ==> after.last().at.x + after.last().at.w == word.x
                    + word.w
            } else {
                after == before
            }
        }),
{
    let before = picks(prev, chars, cuts, word, n);
    let after = picks(prev, chars, cuts, word, n + 1);
    let c = chars[n];
    crate::counting::lemma_tally_same(
        |i: int| before[i].ch == c,
        is_char(before, c),
        before.len() as int,
    );
    if after != before {
        assert(after.drop_last() =~= before);
    }
}

/// Cuts that were found are used if they give each character its own part, and else equal
/// parts are. As many characters are looked at as have a cut on either side.
pub proof fn law_used_cuts(found: Seq<u32>, chars: Seq<char>, width: u32)
    requires
        chars.len() < u32::MAX,
    ensures
        ({
            let n = chars.len() as int;
            let cuts = used_cuts(found, n, width);
            &&& cuts.len() == n + 1
            &&& found.len() == n + 1 ==> cuts == found
            &&& found.len() != n + 1 && n > 0 ==> forall|i: int|
                0 <= i <= n ==> 2 * (i * width) - n < 2 * (n * #[trigger] cuts[i]) <= 2 * (i * width)
                    + n
            &&& cut_chars(chars, cuts) == n
        }),
        forall|cuts: Seq<u32>|
            cuts.len() > 0 ==> #[trigger] cut_chars(chars, cuts) <= chars.len() && cut_chars(
                chars,
                cuts,
            ) <= cuts.len() - 1 && (cut_chars(chars, cuts) == chars.len() || cut_chars(chars, cuts)
                == cuts.len() - 1),
{
    let n = chars.len() as int;
    let cuts = used_cuts(found, n, width);
    if found.len() != n + 1 && n > 0 {
        assert forall|i: int| 0 <= i <= n implies 2 * (i * width) - n < 2 * (n
            * #[trigger] cuts[i]) <= 2 * (i * width) + n by {
            law_uniform_nearest(width as int, n, i);
        }
    }
}

/// Nothing is taken from a word without an indexed character that was taken less than twice
/// before, nor from one that shows nothing. From any other, its characters are picked between
/// its cuts.
pub proof fn law_after_word(
    prev: Seq<CharRegion>,
    page: GrayImage,
    line_height: u32,
    w: WordPlacement,
    found: Seq<u32>,
)
    ensures
        ({
            let chars = w.text@;
            let wanted = exists|i: int|
                0 <= i < chars.len() && indexed().contains(#[trigger] chars[i]) && tally(
                    |k: int| prev[k].ch == chars[i],
                    prev.len() as int,
                ) < 2;
            after_word(prev, page, line_height, w, found) == (match word_region(w, line_height, page) {
                Some(at) => if wanted {
                    picks(
                        prev,
                        chars,
                        used_cuts(found, chars.len() as int, at.w),
                        at,
                        cut_chars(chars, used_cuts(found, chars.len() as int, at.w)),
                    )
                } else {
                    prev
                },
                None => prev,
            })
        }),
{
    let chars = w.text@;
    let known = indexed_of(chars, chars.len() as int);
    law_indexed_of(chars);
    lemma_indexed_of(chars, chars.len() as int);
    if exists|i: int|
        0 <= i < chars.len() && indexed().contains(#[trigger] chars[i]) && tally(
            |k: int| prev[k].ch == chars[i],
            prev.len() as int,
        ) < 2 {
        let i = choose|i: int|
            0 <= i < chars.len() && indexed().contains(#[trigger] chars[i]) && tally(
                |k: int| prev[k].ch == chars[i],
                prev.len() as int,
            ) < 2;
        assert(known.contains(chars[i]));
        let j = choose|j: int| 0 <= j < known.len() && known[j] == chars[i];
        crate::counting::lemma_tally_same(
            |k: int| prev[k].ch == chars[i],
            is_char(prev, chars[i]),
            prev.len() as int,
        );
        assert(times(prev, known[j]) < 2);
        assert(is_needed(prev, known));
    } else if is_needed(prev, known) {
        let j = choose|j: int| 0 <= j < known.len() && times(prev, #[trigger] known[j]) < 2;
        assert(chars.contains(known[j]));
        let i = choose|i: int| 0 <= i < chars.len() && chars[i] == known[j];
        crate::counting::lemma_tally_same(
            |k: int| prev[k].ch == chars[i],
            is_char(prev, chars[i]),
            prev.len() as int,
        );
        assert(indexed().contains(chars[i]));
    }
}

proof fn lemma_indexed_of(chars: Seq<char>, n: int)
    requires
        0 <= n <= chars.len(),
    ensures
        forall|i: int|
            0 <= i < n && indexed().contains(#[trigger] chars[i]) ==> indexed_of(chars, n).contains(
                chars[i],
            ),
        forall|j: int|
            0 <= j < indexed_of(chars, n).len() ==> chars.contains(#[trigger] indexed_of(chars, n)[j])
                && indexed().contains(indexed_of(chars, n)[j]),
    decreases n,
{
    if n > 0 {
        lemma_indexed_of(chars, n - 1);
        let before = indexed_of(chars, n - 1);
        let after = indexed_of(chars, n);
        assert forall|i: int| 0 <= i < n && indexed().contains(#[trigger] chars[i]) implies after.contains(
            chars[i],
        ) by {
            if i < n - 1 {
                let j = choose|j: int| 0 <= j < before.len() && before[j] == chars[i];
                assert(after[j] == chars[i]);
            } else {
                assert(after[before.len() as int] == chars[i]);
            }
        }
        assert forall|j: int| 0 <= j < after.len() implies chars.contains(#[trigger] after[j])
            && indexed().contains(after[j]) by {
            if j < before.len() {
                assert(after[j] == before[j]);
            } else {
                assert(after[j] == chars[n - 1]);
            }
        }
    }
}

/// The indexed characters of a text are left in their order.
pub proof fn law_indexed_of(chars: Seq<char>)
    ensures
        indexed_of(chars, chars.len() as int) == chars.filter(|c: char| indexed().contains(c)),
{
    lemma_indexed_filter(chars, chars.len() as int);
    assert(chars.take(chars.len() as int) =~= chars);
}

proof fn lemma_indexed_filter(chars: Seq<char>, n: int)
    requires
        0 <= n <= chars.len(),
    ensures
        indexed_of(chars, n) == chars.take(n).filter(|c: char| indexed().contains(c)),
    decreases n,
{
    reveal(Seq::filter);
    if n > 0 {
        lemma_indexed_filter(chars, n - 1);
        assert(chars.take(n).drop_last() =~= chars.take(n - 1));
    }
}

/// Words with three characters or more and some width are looked at, each once. Longer words
/// come before shorter ones, and words of one length in their order.
pub proof fn law_word_order(words: Seq<WordPlacement>, order: Seq<usize>, i: usize, a: int, b: int)
    requires
        words.len() <= usize::MAX,
        forall|k: int| 0 <= k < words.len() ==> (#[trigger] words[k]).text@.len() < u32::MAX,
        is_stable_order(
            length_keys(words, long_words(words, words.len() as int)),
            order,
        ),
    ensures
        long_words(words, words.len() as int).contains(i) <==> i < words.len()
            && words[i as int].text@.len() >= 3 && words[i as int].width > 0,
        0 <= a < b < order.len() ==> ({
            let at = long_words(words, words.len() as int);
            let p = at[order[a] as int];
            let q = at[order[b] as int];
            &&& words[p as int].text@.len() >= words[q as int].text@.len()
            &&& words[p as int].text@.len() == words[q as int].text@.len() ==> p < q
        }),
{
    let n = words.len() as int;
    let at = long_words(words, n);
    lemma_long_words_found(words, n);
    if 0 <= a < b < order.len() {
        let keys = length_keys(words, at);
        let p = order[a] as int;
        let q = order[b] as int;
        assert(goes_before(keys, order[a] as int, order[b] as int));
        assert(at.contains(at[p]) && at.contains(at[q]));
        assert(keys[p] == seq![-words[at[p] as int].text@.len() as i64]);
        assert(keys[q] == seq![-words[at[q] as int].text@.len() as i64]);
        assert(keys[p][0] == -(words[at[p] as int].text@.len() as int));
        assert(keys[q][0] == -(words[at[q] as int].text@.len() as int));
        reveal_with_fuel(crate::sorting::lex_le, 2);
        if words[at[p] as int].text@.len() == words[at[q] as int].text@.len() {
            assert(keys[p] =~= keys[q]);
            assert(p < q);
            assert(at[p] < at[q]);
        }
    }
}

proof fn lemma_long_words_found(words: Seq<WordPlacement>, n: int)
    requires
        0 <= n <= words.len(),
        words.len() <= usize::MAX,
    ensures
        forall|i: usize| #[trigger]
            long_words(words, n).contains(i) <==> i < n && words[i as int].text@.len() >= 3
                && words[i as int].width > 0,
        forall|j: int, k: int|
            0 <= j < k < long_words(words, n).len() ==> #[trigger] long_words(words, n)[j]
                < #[trigger] long_words(words, n)[k],
    decreases n,
{
    if n > 0 {
        lemma_long_words_found(words, n - 1);
        let before = long_words(words, n - 1);
        let s = long_words(words, n);
        assert forall|i: usize| #[trigger] s.contains(i) <==> i < n && words[i as int].text@.len()
            >= 3 && words[i as int].width > 0 by {
            if before.contains(i) {
                let k = choose|k: int| 0 <= k < before.len() && before[k] == i;
                assert(s[k] == i);
            }
            if i == n - 1 && s != before {
                assert(s[before.len() as int] == i);
            }
            if s.contains(i) && i != n - 1 {
                let k = choose|k: int| 0 <= k < s.len() && s[k] == i;
                assert(before[k] == i);
            }
        }
        assert forall|j: int, k: int| 0 <= j < k < s.len() implies #[trigger] s[j] < #[trigger] s[k] by {
            assert(s[j] == before[j]);
            assert(before.contains(before[j]));
            if k < before.len() {
                assert(s[k] == before[k]);
            }
        }
    }
}

/// A character box stands in a word if the word was recognised with a confidence that ten does
/// not exceed, and the middle of the box lies between the left and the right edge of the word
/// and, give or take a quarter of the line height, between its top and the end of its box or of
/// one as high as the line.
pub proof fn law_in_word(cb: CharBox, w: WordPlacement, line_height: u32)
    ensures
        in_word(cb, w, line_height) <==> {
            let cx = cb.x + cb.width / 2;
            let cy = cb.y + cb.height / 2;
            let slack = line_height / 4;
            &&& !exceeds(0x4120_0000, w.confidence)
            &&& w.x_off <= cx && cx <= w.x_off + w.width
            &&& cy + slack >= w.y_off
            &&& cy - slack <= w.y_off + w.height || cy - slack <= w.y_off + line_height
        },
{
}

/// A character is taken from its box if the box is at least two by two, stands in some word,
/// is known with a confidence that 75 does not exceed, and is indexed, and if what is left of
/// it on the page is at least two by two and more than three twentieths as wide as high. What
/// is left are the pixels of the page from its corner on, as far as it reaches; a corner beyond
/// the page counts as on its last row or column.
pub proof fn law_box_region(
    cb: CharBox,
    words: Seq<WordPlacement>,
    line_height: u32,
    page: GrayImage,
)
    requires
        page.width > 0,
        page.height > 0,
    ensures
        ({
            let x = if cb.x < page.width {
                cb.x as int
            } else {
                page.width - 1
            };
            let y = if cb.y < page.height {
                cb.y as int
            } else {
                page.height - 1
            };
            match box_region(cb, words, line_height, page) {
                Some(r) => {
                    &&& r.x == x && r.y == y
                    &&& r.x + r.w <= page.width && r.w <= cb.width && (r.x + r.w == page.width || r.w
                        == cb.width)
                    &&& r.y + r.h <= page.height && r.h <= cb.height && (r.y + r.h == page.height
                        || r.h == cb.height)
                    &&& r.w >= 2 && r.h >= 2 && 20 * r.w >= 3 * r.h
                    &&& indexed().contains(cb.ch) && !exceeds(0x4296_0000, cb.confidence)
                    &&& exists|i: int|
                        0 <= i < words.len() && in_word(cb, #[trigger] words[i], line_height)
                },
                None => {
                    ||| cb.width < 2 || cb.height < 2
                    ||| forall|i: int|
                        0 <= i < words.len() ==> !in_word(cb, #[trigger] words[i], line_height)
                    ||| exceeds(0x4296_0000, cb.confidence) || !indexed().contains(cb.ch)
                    ||| x + 2 > page.width || y + 2 > page.height
                    ||| 20 * cb.width < 3 * cb.height || 20 * (page.width - x) < 3 * cb.height
                },
            }
        }),
{
}

/// An image looks like text exactly if it has a pixel of 20 or darker and one of 235 or
/// brighter, and its variance is at least 75 squared.
pub proof fn law_text_crop(d: Seq<u8>)
    ensures
        looks_like_text(d) <==> {
            let n = d.len() as int;
            let sum = total(|i: int| d[i] as int, n);
            let squares = total(|i: int| d[i] * d[i], n);
            &&& exists|i: int| 0 <= i < n && #[trigger] d[i] <= 20
            &&& exists|i: int| 0 <= i < n && #[trigger] d[i] >= 235
            &&& n * squares - sum * sum >= (75 * n) * (75 * n)
        },
{
    let n = d.len() as int;
    crate::counting::lemma_total_same(|i: int| d[i] as int, value(d), n);
    crate::counting::lemma_total_same(|i: int| d[i] * d[i], square(d), n);
    assert((75 * n) * (75 * n) == 5625 * (n * n)) by (nonlinear_arith);
}

/// A box is kept exactly if a character can be taken from it, its image looks like text, and
/// the character was kept less than three times before.
pub proof fn law_kept_boxes(
    boxes: Seq<CharBox>,
    imgs: Seq<GrayImage>,
    words: Seq<WordPlacement>,
    line_height: u32,
    page: GrayImage,
    n: int,
)
    requires
        0 <= n < boxes.len(),
    ensures
        kept_boxes(boxes, imgs, words, line_height, page, 0).len() == 0,
        ({
            let before = kept_boxes(boxes, imgs, words, line_height, page, n);
            let c = boxes[n].ch;
            let often = tally(|i: int| before[i].ch == c, before.len() as int) >= 3;
            let at = box_region(boxes[n], words, line_height, page);
            let kept = at is Some && looks_like_text(imgs[n].data@) && !often;
            &&& kept_boxes(boxes, imgs, words, line_height, page, n + 1) == (if kept {
                before.push(CharRegion { ch: c, at: at->0 })
            } else {
                before
            })
            &&& kept_numbers(boxes, imgs, words, line_height, page, n + 1) == (if kept {
                kept_numbers(boxes, imgs, words, line_height, page, n).push(n)
            } else {
                kept_numbers(boxes, imgs, words, line_height, page, n)
            })
        }),
{
    let before = kept_boxes(boxes, imgs, words, line_height, page, n);
    let c = boxes[n].ch;
    crate::counting::lemma_tally_same(
        |i: int| before[i].ch == c,
        is_char(before, c),
        before.len() as int,
    );
}

/// A character is scaled to a height of 48 and keeps its proportions: the width is the least
/// that is not too narrow.
pub proof fn law_scaled_region(page: GrayImage, at: Region, out: GrayImage)
    requires
        at.h > 0,
        is_scaled(page, at, out),
    ensures
        out.height == 48,
        (out.width - 1) * at.h < 48 * at.w <= out.width * at.h,
{
    let a = at.w * NORM_H;
    let h = at.h as int;
    let q = (a + h - 1) / h;
    vstd::arithmetic::div_mod::lemma_fundamental_div_mod(a + h - 1, h);
    vstd::arithmetic::div_mod::lemma_mod_bound(a + h - 1, h);
    assert(h * q == q * h && (q - 1) * h == q * h - h) by (nonlinear_arith);
}

/// A word is cut where it lies on the page and one of its indexed characters was taken less than
/// twice so far: into as many parts as it has indexed characters.
pub proof fn law_cut(
    prev: Seq<CharRegion>,
    page: GrayImage,
    line_height: u32,
    w: WordPlacement,
    found: Seq<u32>,
    i: int,
)
    requires
        is_cut(prev, page, line_height, w, found),
        0 <= i < indexed_of(w.text@, w.text@.len() as int).len(),
        times(prev, indexed_of(w.text@, w.text@.len() as int)[i]) <= 1,
        word_region(w, line_height, page) is Some,
    ensures
        are_cuts(
            page,
            word_region(w, line_height, page)->0,
            indexed_of(w.text@, w.text@.len() as int).len() as int,
            found,
        ),
{
    assert(is_needed(prev, indexed_of(w.text@, w.text@.len() as int)));
}


} // verus!
