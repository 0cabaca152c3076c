//! Matching the words of a specimen page: its sections, its words and lines, and which font
//! a line is set in.

use vstd::prelude::*;
use vstd::string::*;
use crate::counting::{total, lemma_total_same};
use crate::float_bits::{exceeds, float_key, is_larger, is_nan};
use crate::raster::GrayImage;
use crate::sorting::{
    is_permutation, is_stable_order, key_views, law_lexicographic, lex_le, stable_order,
};
use crate::text::{
    char_at, chars_of, contains, copy_of, has_part, join, law_join_split, lines, lines_of,
    in_lower_case, parse_unsigned, split, split_chars, text_of, to_lowercase, trim, trimmed, unsigned_value, views,
};

verus! {

// --- Sections ---

/// How many sections a specimen has.
pub const SECTION_COUNT: usize = 5;

/// What stands in the heading of a section.
pub open spec fn heading_of(i: int) -> Seq<char> {
    if i == 0 {
        "the garamond"@
    } else if i == 1 {
        "the caslon"@
    } else if i == 2 {
        "the baskerville"@
    } else if i == 3 {
        "the bodoni"@
    } else {
        "the slab serif"@
    }
}

/// The name of a section, which is also what the names of its fonts hold.
pub open spec fn name_of(i: int) -> Seq<char> {
    if i == 0 {
        "garamond"@
    } else if i == 1 {
        "caslon"@
    } else if i == 2 {
        "baskerville"@
    } else if i == 3 {
        "bodoni"@
    } else {
        "zilla"@
    }
}

/// The section that a lower-case text is the heading of: the first one whose heading it
/// holds.
pub open spec fn is_section_in(lower: Seq<char>, r: Option<usize>) -> bool {
    match r {
        Some(i) => {
            &&& i < SECTION_COUNT
            &&& contains(lower, heading_of(i as int))
            &&& forall|k: int| 0 <= k < i ==> !#[trigger] contains(lower, heading_of(k))
        },
        None => forall|k: int|
            0 <= k < SECTION_COUNT ==> !#[trigger] contains(lower, heading_of(k)),
    }
}

/// The section that a lower-case text is the heading of.
pub fn section_in(lower: &str) -> (r: Option<usize>)
    ensures
        is_section_in(lower@, r),
{
    let v: Vec<char> = chars_of(lower);
    if has_part(&v, &chars_of("the garamond")) {
        return Some(0);
    }
    if has_part(&v, &chars_of("the caslon")) {
        return Some(1);
    }
    if has_part(&v, &chars_of("the baskerville")) {
        return Some(2);
    }
    if has_part(&v, &chars_of("the bodoni")) {
        return Some(3);
    }
    if has_part(&v, &chars_of("the slab serif")) {
        return Some(4);
    }
    None
}

/// The name of a section.
pub fn section_name(i: usize) -> (s: &'static str)
    requires
        i < SECTION_COUNT,
    ensures
        s@ == name_of(i as int),
{
    if i == 0 {
        "garamond"
    } else if i == 1 {
        "caslon"
    } else if i == 2 {
        "baskerville"
    } else if i == 3 {
        "bodoni"
    } else {
        "zilla"
    }
}

/// The name of the section that a text is the heading of.
pub fn detect_section(text: &str) -> (r: Option<&'static str>)
    ensures
        exists|s: Option<usize>|
            #[trigger] is_section_in(in_lower_case(text@), s) && match s {
                Some(i) => r is Some && r->0@ == name_of(i as int),
                None => r is None,
            },
{
    let lower: String = to_lowercase(text);
    match section_in(lower.as_str()) {
        Some(i) => Some(section_name(i)),
        None => None,
    }
}

/// A section has this name.
pub open spec fn is_section_name(s: Seq<char>) -> bool {
    exists|i: int| 0 <= i < SECTION_COUNT && s == #[trigger] name_of(i)
}

/// Whether a font with a lower-case name belongs to a section.
pub fn name_fits(lower: &str, section: &str) -> (r: bool)
    ensures
        r == (is_section_name(section@) && contains(lower@, section@)),
{
    let s: Vec<char> = chars_of(section);
    let mut known: bool = false;
    for i in 0..SECTION_COUNT
        invariant
            s@ == section@,
            known == exists|k: int| 0 <= k < i && section@ == #[trigger] name_of(k),
    {
        let same: bool = crate::text::same_chars(&s, &chars_of(section_name(i)));
        assert(same ==> section@ == name_of(i as int));
        known = known || same;
    }
    known && has_part(&chars_of(lower), &s)
}

/// Whether a font belongs to a section.
pub fn font_matches_section(font_name: &str, section: &str) -> (r: bool)
    ensures
        r == (is_section_name(section@) && contains(in_lower_case(font_name@), section@)),
{
    let lower: String = to_lowercase(font_name);
    name_fits(lower.as_str(), section)
}

// --- Similarity ---

/// A cell of an image, white outside of it.
pub open spec fn padded(img: GrayImage, x: int, y: int) -> int {
    if x < img.width && y < img.height {
        img.px(x, y) as int
    } else {
        255
    }
}

/// Cell `k` of an image on a canvas of width `w`.
pub open spec fn padded_cell(img: GrayImage, w: int) -> spec_fn(int) -> int {
    |k: int| padded(img, k % w, k / w)
}

/// The product of two images' cells.
pub open spec fn cell_product(a: GrayImage, b: GrayImage, w: int) -> spec_fn(int) -> int {
    |k: int| padded_cell(a, w)(k) * padded_cell(b, w)(k)
}

/// The larger of two numbers.
pub open spec fn larger(a: int, b: int) -> int {
    if a >= b {
        a
    } else {
        b
    }
}

/// What the similarity of two images is computed from.
pub struct SsimSums {
    pub cells: u64,
    pub a: u128,
    pub b: u128,
    pub aa: u128,
    pub bb: u128,
    pub ab: u128,
}

/// The sums over a canvas that holds both images.
pub open spec fn are_sums(a: GrayImage, b: GrayImage, s: SsimSums) -> bool {
    let w = larger(a.width as int, b.width as int);
    let n = w * larger(a.height as int, b.height as int);
    &&& s.cells == n
    &&& s.a == total(padded_cell(a, w), n)
    &&& s.b == total(padded_cell(b, w), n)
    &&& s.aa == total(cell_product(a, a, w), n)
    &&& s.bb == total(cell_product(b, b, w), n)
    &&& s.ab == total(cell_product(a, b, w), n)
}

fn cell(img: &GrayImage, x: u64, y: u64) -> (v: u8)
    requires
        img.wf(),
    ensures
        v == padded(*img, x as int, y as int),
{
    if x < img.width as u64 && y < img.height as u64 {
        img.get(x as u32, y as u32)
    } else {
        255
    }
}

/// Sums up two images on a common canvas; there is none where a side has no length.
pub fn ssim_sums(a: &GrayImage, b: &GrayImage) -> (r: Option<SsimSums>)
    requires
        a.wf(),
        b.wf(),
    ensures
        r is None <==> larger(a.width as int, b.width as int) == 0 || larger(
            a.height as int,
            b.height as int,
        ) == 0,
        r is Some ==> are_sums(*a, *b, r->0),
{
    let w32: u32 = if a.width >= b.width {
        a.width
    } else {
        b.width
    };
    let h32: u32 = if a.height >= b.height {
        a.height
    } else {
        b.height
    };
    if w32 == 0 || h32 == 0 {
        return None;
    }
    let w: u64 = w32 as u64;
    let n: u64 = crate::raster::mul_sides(w32, h32);
    let mut s: SsimSums = SsimSums { cells: n, a: 0, b: 0, aa: 0, bb: 0, ab: 0 };
    for k in 0..n
        invariant
            a.wf(),
            b.wf(),
            w > 0,
            s.cells == n,
            s.a == total(padded_cell(*a, w as int), k as int),
            s.b == total(padded_cell(*b, w as int), k as int),
            s.aa == total(cell_product(*a, *a, w as int), k as int),
            s.bb == total(cell_product(*b, *b, w as int), k as int),
            s.ab == total(cell_product(*a, *b, w as int), k as int),
            s.a <= 255 * k,
            s.b <= 255 * k,
            s.aa <= 65025 * k,
            s.bb <= 65025 * k,
            s.ab <= 65025 * k,
    {
        let va: u128 = cell(a, k % w, k / w) as u128;
        let vb: u128 = cell(b, k % w, k / w) as u128;
        assert(0 <= va * va <= 65025 && 0 <= vb * vb <= 65025 && 0 <= va * vb <= 65025)
            by (nonlinear_arith)
            requires
                0 <= va <= 255,
                0 <= vb <= 255,
        ;
        s.a = s.a + va;
        s.b = s.b + vb;
        s.aa = s.aa + va * va;
        s.bb = s.bb + vb * vb;
        s.ab = s.ab + va * vb;
    }
    Some(s)
}

/// Two images have the same sums whichever comes first, but for their places.
pub proof fn law_sums_symmetric(a: GrayImage, b: GrayImage, s: SsimSums)
    requires
        are_sums(a, b, s),
    ensures
        are_sums(
            b,
            a,
            (SsimSums { cells: s.cells, a: s.b, b: s.a, aa: s.bb, bb: s.aa, ab: s.ab }),
        ),
{
    let w = larger(a.width as int, b.width as int);
    let n = w * larger(a.height as int, b.height as int);
    assert forall|i: int| 0 <= i < n implies cell_product(a, b, w)(i) == #[trigger] cell_product(
        b,
        a,
        w,
    )(i) by {
        let x = padded_cell(a, w)(i);
        let y = padded_cell(b, w)(i);
        assert(x * y == y * x) by (nonlinear_arith);
    }
    crate::counting::lemma_total_same(cell_product(a, b, w), cell_product(b, a, w), n);
}

/// Moves an image down by `dy` rows; what comes into it is white.
pub fn vshift_image(img: &GrayImage, dy: i32) -> (out: GrayImage)
    requires
        img.wf(),
    ensures
        out.wf(),
        out.width == img.width,
        out.height == img.height,
        forall|x: int, y: int|
            0 <= x < img.width && 0 <= y < img.height ==> #[trigger] out.px(x, y) == if 0 <= y - dy
                < img.height {
                img.px(x, y - dy)
            } else {
                255u8
            },
{
    let w: u32 = img.width;
    let h: u32 = img.height;
    let mut data: Vec<u8> = Vec::new();
    for y in 0..h
        invariant
            img.wf(),
            w == img.width,
            h == img.height,
            data@.len() == y * w,
            forall|i: int, j: int|
                0 <= i < w && 0 <= j < y ==> #[trigger] data@[j * w + i] == if 0 <= j - dy < h {
                    img.px(i, j - dy)
                } else {
                    255u8
                },
    {
        let from: i64 = y as i64 - dy as i64;
        let ghost before = data@;
        for x in 0..w
            invariant
                img.wf(),
                w == img.width,
                h == img.height,
                y < h,
                from == y - dy,
                before.len() == y * w,
                data@.len() == y * w + x,
                forall|k: int| 0 <= k < before.len() ==> #[trigger] data@[k] == before[k],
                forall|i: int|
                    0 <= i < x ==> #[trigger] data@[y * w + i] == if 0 <= y - dy < h {
                        img.px(i, y - dy)
                    } else {
                        255u8
                    },
        {
            if from >= 0 && from < h as i64 {
                data.push(img.get(x, from as u32));
            } else {
                data.push(255);
            }
        }
        proof {
            assert(y * w + w == (y + 1) * w) by (nonlinear_arith);
            assert forall|i: int, j: int| 0 <= i < w && 0 <= j < y + 1 implies #[trigger] data@[j
                * w + i] == (if 0 <= j - dy < h {
                img.px(i, j - dy)
            } else {
                255u8
            }) by {
                if j < y {
                    assert(j * w + i < y * w) by (nonlinear_arith)
                        requires
                            i < w,
                            j < y,
                            0 <= w,
                    ;
                    assert(0 <= j * w + i) by (nonlinear_arith)
                        requires
                            0 <= i,
                            0 <= j,
                            0 <= w,
                    ;
                    assert(data@[j * w + i] == before[j * w + i]);
                }
            }
        }
    }
    assert(h * w == w * h) by (nonlinear_arith);
    GrayImage { width: w, height: h, data }
}

/// The bit pattern of the least finite number.
pub const LEAST: u32 = 0xff7f_ffff;

/// The first of the largest scores, of those above the least finite number.
pub open spec fn is_first_best(scores: Seq<u32>, r: Option<usize>) -> bool {
    match r {
        Some(i) => {
            &&& i < scores.len()
            &&& exceeds(scores[i as int], LEAST)
            &&& forall|k: int| 0 <= k < scores.len() ==> !exceeds(#[trigger] scores[k], scores[i as int])
            &&& forall|k: int|
                0 <= k < i ==> exceeds(scores[i as int], LEAST) && (is_nan(#[trigger] scores[k])
                    || float_key(scores[k]) < float_key(scores[i as int]))
        },
        None => forall|k: int| 0 <= k < scores.len() ==> !exceeds(#[trigger] scores[k], LEAST),
    }
}

/// Finds the first of the largest scores.
pub fn best_of(scores: &Vec<u32>) -> (r: Option<usize>)
    ensures
        is_first_best(scores@, r),
{
    let n: usize = scores.len();
    let mut best: Option<usize> = None;
    for i in 0..n
        invariant
            n == scores@.len(),
            best is Some ==> best->0 < i,
            is_first_best(scores@.take(i as int), best),
    {
        let ghost s = scores@.take(i as int);
        let ghost t = scores@.take(i + 1);
        let bound: u32 = match best {
            Some(b) => scores[b],
            None => LEAST,
        };
        proof {
            assert(forall|k: int| 0 <= k < i ==> #[trigger] t[k] == s[k]);
            assert(t[i as int] == scores@[i as int]);
        }
        if is_larger(scores[i], bound) {
            best = Some(i);
        }
    }
    assert(scores@.take(n as int) =~= scores@);
    best
}

/// The shift that fits best, of those from `-max_shift` to `max_shift` in this order, with
/// its score.
pub fn best_shift(scores: &Vec<u32>, max_shift: i32) -> (r: (u32, i32))
    requires
        0 <= max_shift < 0x4000_0000,
        scores@.len() == 2 * max_shift + 1,
    ensures
        exists|b: Option<usize>|
            #[trigger] is_first_best(scores@, b) && match b {
                Some(i) => r.0 == scores@[i as int] && r.1 == i - max_shift,
                None => r == (LEAST, 0i32),
            },
{
    match best_of(scores) {
        Some(i) => (scores[i], i as i32 - max_shift),
        None => (LEAST, 0),
    }
}

// --- Words ---

/// A word that was recognised on a page.
pub struct TsvWord {
    pub text: String,
    pub x: u32,
    pub y: u32,
    pub width: u32,
    pub height: u32,
    /// The bit pattern of the confidence.
    pub conf: u32,
    pub block_num: u32,
    pub par_num: u32,
    pub line_num: u32,
}

/// What is known of a word.
pub struct WordRow {
    pub text: Seq<char>,
    pub x: int,
    pub y: int,
    pub width: int,
    pub height: int,
    pub conf: u32,
    pub line: (int, int, int),
}

impl TsvWord {
    pub open spec fn row(&self) -> WordRow {
        WordRow {
            text: self.text@,
            x: self.x as int,
            y: self.y as int,
            width: self.width as int,
            height: self.height as int,
            conf: self.conf,
            line: (self.block_num as int, self.par_num as int, self.line_num as int),
        }
    }
}

pub open spec fn word_rows(v: Seq<TsvWord>) -> Seq<WordRow> {
    Seq::new(v.len(), |i: int| v[i].row())
}

/// The bit pattern of minus one, the confidence of what cannot be read.
pub const NO_CONFIDENCE: u32 = 0xbf80_0000;

/// A number of a column, zero where there is none.
pub open spec fn column_value(s: Seq<char>) -> int {
    match unsigned_value(s, u32::MAX as int) {
        Some(v) => v,
        None => 0,
    }
}

/// The word of a line of the table. The level of words is five, and what is empty, less than
/// three cells wide or high or of a negative confidence is no word.
pub open spec fn word_of_line(line: Seq<char>, conf: u32) -> Option<WordRow> {
    let c = split(line, '\t');
    let text = trim(c[11]);
    let w = column_value(c[8]);
    let h = column_value(c[9]);
    if c.len() < 12 || column_value(c[0]) != 5 || text.len() == 0 || exceeds(0, conf) || w < 3 || h
        < 3 {
        None
    } else {
        Some(
            WordRow {
                text,
                x: column_value(c[6]),
                y: column_value(c[7]),
                width: w,
                height: h,
                conf,
                line: (column_value(c[2]), column_value(c[3]), column_value(c[4])),
            },
        )
    }
}

/// The confidence that was read for the `i`-th line behind the heading.
pub open spec fn conf_at(confs: Seq<u32>, i: int) -> u32 {
    if i < confs.len() {
        confs[i]
    } else {
        NO_CONFIDENCE
    }
}

/// The words of the lines before line `n`; line zero is the heading of the table.
pub open spec fn words_before(rows: Seq<Seq<char>>, confs: Seq<u32>, n: int) -> Seq<WordRow>
    decreases n,
{
    if n <= 1 {
        Seq::empty()
    } else {
        let w = words_before(rows, confs, n - 1);
        match word_of_line(rows[n - 1], conf_at(confs, n - 2)) {
            Some(r) => w.push(r),
            None => w,
        }
    }
}

/// The confidence of a line as it is written, or nothing where there are too few columns.
pub open spec fn conf_text(line: Seq<char>) -> Seq<char> {
    let c = split(line, '\t');
    if c.len() < 12 {
        Seq::empty()
    } else {
        c[10]
    }
}

/// The confidences of the lines behind the heading as they are written.
pub fn confidence_texts(tsv: &str) -> (r: Vec<String>)
    ensures
        r@.len() == if lines(tsv@).len() == 0 {
            0
        } else {
            lines(tsv@).len() - 1
        },
        forall|i: int|
            0 <= i < r@.len() ==> #[trigger] r@[i]@ == conf_text(lines(tsv@)[i + 1]),
{
    let rows: Vec<Vec<char>> = lines_of(&chars_of(tsv));
    let n: usize = rows.len();
    assert(views(rows@).len() == n);
    let mut out: Vec<String> = Vec::new();
    let mut k: usize = 1;
    while k < n
        invariant
            n == rows@.len(),
            views(rows@) == lines(tsv@),
            1 <= k,
            k <= n || n == 0,
            n == 0 ==> k == 1,
            out@.len() == k - 1,
            forall|i: int|
                0 <= i < out@.len() ==> #[trigger] out@[i]@ == conf_text(lines(tsv@)[i + 1]),
        decreases n - k,
    {
        let c: Vec<Vec<char>> = split_chars(&rows[k], '\t');
        proof {
            assert(views(rows@)[k as int] == rows@[k as int]@);
            assert(views(c@).len() == c@.len());
        }
        if c.len() < 12 {
            let s: String = copy_of("");
            proof {
                reveal_strlit("");
                assert(s@ =~= Seq::<char>::empty());
            }
            out.push(s);
        } else {
            assert(views(c@)[10] == c@[10]@);
            out.push(text_of(&c[10]));
        }
        k = k + 1;
    }
    out
}

fn number_in(v: &Vec<char>) -> (r: u32)
    ensures
        r == column_value(v@),
{
    match parse_unsigned(v, 0xffff_ffff) {
        Some(n) => n as u32,
        None => 0,
    }
}

fn read_word(line: &Vec<char>, conf: u32) -> (r: Option<TsvWord>)
    ensures
        r is Some <==> word_of_line(line@, conf) is Some,
        r is Some ==> r->0.row() == word_of_line(line@, conf)->0,
{
    let c: Vec<Vec<char>> = split_chars(line, '\t');
    assert(views(c@).len() == c@.len());
    if c.len() < 12 {
        return None;
    }
    proof {
        assert(forall|i: int| 0 <= i < c@.len() ==> views(c@)[i] == #[trigger] c@[i]@);
    }
    if number_in(&c[0]) != 5 {
        return None;
    }
    let text: Vec<char> = trimmed(&c[11]);
    let width: u32 = number_in(&c[8]);
    let height: u32 = number_in(&c[9]);
    if text.len() == 0 || is_larger(0, conf) || width < 3 || height < 3 {
        return None;
    }
    Some(
        TsvWord {
            text: text_of(&text),
            x: number_in(&c[6]),
            y: number_in(&c[7]),
            width,
            height,
            conf,
            block_num: number_in(&c[2]),
            par_num: number_in(&c[3]),
            line_num: number_in(&c[4]),
        },
    )
}

/// The words of a table. The bit patterns of the confidences come in the order of the lines
/// behind the heading.
pub fn parse_tsv(tsv: &str, confs: &Vec<u32>) -> (words: Vec<TsvWord>)
    ensures
        word_rows(words@) == words_before(lines(tsv@), confs@, lines(tsv@).len() as int),
{
    let rows: Vec<Vec<char>> = lines_of(&chars_of(tsv));
    let n: usize = rows.len();
    assert(views(rows@).len() == n);
    let mut words: Vec<TsvWord> = Vec::new();
    assert(word_rows(words@) =~= words_before(lines(tsv@), confs@, 1));
    assert(word_rows(words@) =~= words_before(lines(tsv@), confs@, 0));
    let mut k: usize = 1;
    while k < n
        invariant
            n == rows@.len(),
            views(rows@) == lines(tsv@),
            1 <= k,
            k <= n || n == 0,
            n == 0 ==> words@.len() == 0,
            word_rows(words@) == words_before(lines(tsv@), confs@, k as int),
        decreases n - k,
    {
        assert(views(rows@)[k as int] == rows@[k as int]@);
        let conf: u32 = if k - 1 < confs.len() {
            confs[k - 1]
        } else {
            NO_CONFIDENCE
        };
        let ghost before = words@;
        match read_word(&rows[k], conf) {
            Some(w) => {
                words.push(w);
                assert(word_rows(words@) =~= word_rows(before).push(w.row()));
            },
            None => {},
        }
        k = k + 1;
    }
    words
}

// --- Lines ---

/// A line of words.
pub struct TextLine {
    pub text: String,
    pub words: Vec<TsvWord>,
    pub block_num: u32,
    pub par_num: u32,
    pub line_num: u32,
}

impl TextLine {
    pub open spec fn line(&self) -> (int, int, int) {
        (self.block_num as int, self.par_num as int, self.line_num as int)
    }
}

/// What words are sorted by: their line, then where they begin.
pub open spec fn word_key(w: WordRow) -> Seq<i64> {
    seq![w.line.0 as i64, w.line.1 as i64, w.line.2 as i64, w.x as i64]
}

pub open spec fn line_keys(v: Seq<TsvWord>) -> Seq<Seq<i64>> {
    Seq::new(v.len(), |i: int| word_key(v[i].row()))
}

/// The words in another order.
pub open spec fn reordered(v: Seq<TsvWord>, order: Seq<usize>) -> Seq<WordRow> {
    Seq::new(order.len(), |i: int| v[order[i] as int].row())
}

/// The words of the first `n` lines one after the other.
pub open spec fn flat(v: Seq<TextLine>, n: int) -> Seq<WordRow>
    decreases n,
{
    if n <= 0 {
        Seq::empty()
    } else {
        flat(v, n - 1) + word_rows(v[n - 1].words@)
    }
}

/// The texts of words.
pub open spec fn word_texts(v: Seq<WordRow>) -> Seq<Seq<char>> {
    Seq::new(v.len(), |i: int| v[i].text)
}

/// A line holds words of its own alone, at least one, and its text is theirs.
pub open spec fn is_line(l: TextLine) -> bool {
    &&& l.words@.len() > 0
    &&& forall|i: int| 0 <= i < l.words@.len() ==> (#[trigger] l.words@[i]).row().line == l.line()
    &&& l.text@ == join(word_texts(word_rows(l.words@)), ' ')
}

/// The lines of words in the given order: the words are taken one after the other, and those
/// of one line stand together.
pub open spec fn are_lines(v: Seq<WordRow>, l: Seq<TextLine>) -> bool {
    &&& flat(l, l.len() as int) == v
    &&& forall|i: int| 0 <= i < l.len() ==> is_line(#[trigger] l[i])
    &&& forall|i: int, k: int|
        0 <= i && k == i + 1 && k < l.len() ==> (#[trigger] l[i]).line() != (#[trigger] l[k]).line()
}

fn copy_word(w: &TsvWord) -> (c: TsvWord)
    ensures
        c.row() == w.row(),
{
    TsvWord {
        text: copy_of(w.text.as_str()),
        x: w.x,
        y: w.y,
        width: w.width,
        height: w.height,
        conf: w.conf,
        block_num: w.block_num,
        par_num: w.par_num,
        line_num: w.line_num,
    }
}

fn key_row(w: &TsvWord) -> (k: Vec<i64>)
    ensures
        k@ == word_key(w.row()),
{
    let mut k: Vec<i64> = Vec::new();
    k.push(w.block_num as i64);
    k.push(w.par_num as i64);
    k.push(w.line_num as i64);
    k.push(w.x as i64);
    assert(k@ =~= word_key(w.row()));
    k
}

proof fn lemma_join_push(parts: Seq<Seq<char>>, s: Seq<char>, sep: char)
    requires
        parts.len() > 0,
    ensures
        join(parts.push(s), sep) == join(parts, sep).push(sep) + s,
{
    assert(parts.push(s).drop_last() =~= parts);
}

/// Puts words together into lines: the lines come in the order of their blocks, paragraphs
/// and numbers, and the words of a line from left to right.
pub fn assemble_lines(words: &Vec<TsvWord>) -> (r: Vec<TextLine>)
    ensures
        exists|order: Seq<usize>|
            is_stable_order(line_keys(words@), order) && are_lines(
                #[trigger] reordered(words@, order),
                r@,
            ),
{
    let n: usize = words.len();
    let mut keys: Vec<Vec<i64>> = Vec::new();
    for i in 0..n
        invariant
            n == words@.len(),
            keys@.len() == i,
            forall|k: int| 0 <= k < i ==> #[trigger] keys@[k]@ == word_key(words@[k].row()),
    {
        keys.push(key_row(&words[i]));
    }
    let order: Vec<usize> = stable_order(&keys);
    assert(key_views(keys@) =~= line_keys(words@));
    let mut out: Vec<TextLine> = Vec::new();
    let ghost v = reordered(words@, order@);
    assert(v.take(0) =~= flat(out@, 0));
    for i in 0..n
        invariant
            n == words@.len(),
            order@.len() == n,
            is_permutation(order@, n as int),
            v == reordered(words@, order@),
            i > 0 ==> out@.len() > 0,
            are_lines(v.take(i as int), out@),
    {
        let w: &TsvWord = &words[order[i]];
        let ghost before = out@;
        let m: usize = out.len();
        assert(v.take(i + 1) =~= v.take(i as int).push(w.row()));
        if m > 0 && out[m - 1].block_num == w.block_num && out[m - 1].par_num == w.par_num && out[m
            - 1].line_num == w.line_num {
            let last: Option<TextLine> = out.pop();
            match last {
                Some(l) => {
                    let TextLine { text: t, words: ws, block_num, par_num, line_num } = l;
                    let mut text: String = t;
                    let mut list: Vec<TsvWord> = ws;
                    let ghost rows = word_rows(list@);
                    text.push(' ');
                    text.append(w.text.as_str());
                    list.push(copy_word(w));
                    proof {
                        assert(word_rows(list@) =~= rows.push(w.row()));
                        assert(word_texts(rows.push(w.row())) =~= word_texts(rows).push(w.text@));
                        lemma_join_push(word_texts(rows), w.text@, ' ');
                        assert(is_line(before[m - 1]));
                        assert(text@ =~= join(word_texts(rows), ' ').push(' ') + w.text@);
                    }
                    let grown: TextLine = TextLine {
                        text,
                        words: list,
                        block_num,
                        par_num,
                        line_num,
                    };
                    proof {
                        assert forall|k: int| 0 <= k < grown.words@.len() implies (
                        #[trigger] grown.words@[k]).row().line == grown.line() by {
                            if k < rows.len() {
                                assert(word_rows(list@)[k] == rows[k]);
                                assert(rows[k] == before[m - 1].words@[k].row());
                            }
                        }
                    }
                    out.push(grown);
                    proof {
                        lemma_flat_same(before, out@, m - 1);
                        assert(flat(out@, m as int) =~= flat(before, m as int).push(w.row()));
                        assert(forall|k: int|
                            0 <= k < m - 1 ==> #[trigger] out@[k] == before[k]);
                    }
                },
                None => {
                    assert(false);
                },
            }
        } else {
            let mut list: Vec<TsvWord> = Vec::new();
            list.push(copy_word(w));
            let line: TextLine = TextLine {
                text: copy_of(w.text.as_str()),
                words: list,
                block_num: w.block_num,
                par_num: w.par_num,
                line_num: w.line_num,
            };
            proof {
                assert(word_rows(line.words@) =~= seq![w.row()]);
                assert(word_texts(seq![w.row()]) =~= seq![w.text@]);
                reveal_with_fuel(join, 2);
                assert(join(seq![w.text@], ' ') =~= w.text@);
            }
            out.push(line);
            proof {
                lemma_flat_same(before, out@, m as int);
                assert(flat(out@, m + 1) =~= flat(before, m as int).push(w.row()));
                assert(forall|k: int| 0 <= k < m ==> #[trigger] out@[k] == before[k]);
            }
        }
    }
    assert(v.take(n as int) =~= v);
    out
}

proof fn lemma_flat_same(a: Seq<TextLine>, b: Seq<TextLine>, n: int)
    requires
        0 <= n <= a.len(),
        n <= b.len(),
        forall|k: int| 0 <= k < n ==> a[k] == b[k],
    ensures
        flat(a, n) == flat(b, n),
    decreases n,
{
    if n > 0 {
        lemma_flat_same(a, b, n - 1);
    }
}


/// One line comes before another.
pub open spec fn line_before(a: (int, int, int), b: (int, int, int)) -> bool {
    a.0 < b.0 || (a.0 == b.0 && (a.1 < b.1 || (a.1 == b.1 && a.2 < b.2)))
}

proof fn lemma_key_order(a: WordRow, b: WordRow)
    requires
        crate::sorting::lex_le(word_key(a), word_key(b)),
        a.line != b.line,
        0 <= a.line.0 <= u32::MAX && 0 <= a.line.1 <= u32::MAX && 0 <= a.line.2 <= u32::MAX,
        0 <= b.line.0 <= u32::MAX && 0 <= b.line.1 <= u32::MAX && 0 <= b.line.2 <= u32::MAX,
    ensures
        line_before(a.line, b.line),
{
    let x = word_key(a);
    let y = word_key(b);
    reveal_with_fuel(crate::sorting::lex_le, 5);
    assert(x.drop_first()[0] == x[1] && y.drop_first()[0] == y[1]);
    assert(x.drop_first().drop_first()[0] == x[2] && y.drop_first().drop_first()[0] == y[2]);
}

proof fn lemma_flat_at(l: Seq<TextLine>, n: int, i: int, k: int)
    requires
        0 <= i < n <= l.len(),
        0 <= k < l[i].words@.len(),
    ensures
        flat(l, i).len() + k < flat(l, n).len(),
        flat(l, n)[flat(l, i).len() + k] == l[i].words@[k].row(),
        flat(l, i).len() + l[i].words@.len() <= flat(l, n).len(),
    decreases n,
{
    if i < n - 1 {
        lemma_flat_at(l, n - 1, i, k);
    } else {
        assert(word_rows(l[i].words@)[k] == l[i].words@[k].row());
    }
}

/// The lines that words are put together into come in ascending order, so that no line comes
/// twice.
pub proof fn law_lines_ascend(
    words: Seq<TsvWord>,
    order: Seq<usize>,
    l: Seq<TextLine>,
    i: int,
    k: int,
)
    requires
        is_stable_order(line_keys(words), order),
        are_lines(reordered(words, order), l),
        0 <= i < k < l.len(),
    ensures
        line_before(l[i].line(), l[k].line()),
    decreases k - i,
{
    if i + 1 < k {
        law_lines_ascend(words, order, l, i, k - 1);
        law_lines_ascend(words, order, l, k - 1, k);
    } else {
        let n = l.len() as int;
        assert(is_line(l[i]) && is_line(l[k]));
        lemma_flat_at(l, n, i, 0);
        lemma_flat_at(l, n, k, 0);
        let a = flat(l, i).len() as int;
        let b = flat(l, k).len() as int;
        assert(b == a + l[i].words@.len());
        let v = reordered(words, order);
        assert(v[a] == l[i].words@[0].row() && v[b] == l[k].words@[0].row());
        let oa = order[a] as int;
        let ob = order[b] as int;
        assert(crate::sorting::goes_before(line_keys(words), oa, ob));
        assert(line_keys(words)[oa] == word_key(words[oa].row()));
        assert(line_keys(words)[ob] == word_key(words[ob].row()));
        lemma_key_order(words[oa].row(), words[ob].row());
    }
}

/// Every word is in a line.
pub proof fn law_words_kept(words: Seq<TsvWord>, order: Seq<usize>, l: Seq<TextLine>, i: int)
    requires
        is_stable_order(line_keys(words), order),
        are_lines(reordered(words, order), l),
        0 <= i < words.len() <= usize::MAX,
    ensures
        flat(l, l.len() as int).contains(words[i].row()),
        flat(l, l.len() as int).len() == words.len(),
{
    assert(order.contains(i as usize));
    let a = choose|a: int| 0 <= a < order.len() && order[a] == i as usize;
    assert(reordered(words, order)[a] == words[i].row());
}

// --- Votes ---

/// The bit pattern of fifty, below which a confidence is too low for a word to count.
pub const LOW_CONFIDENCE: u32 = 0x4248_0000;

/// A word counts: it is longer than one byte and recognised well enough.
pub open spec fn is_usable(w: WordRow) -> bool {
    &&& (w.text.len() >= 2 || (w.text.len() == 1 && w.text[0] as u32 >= 128))
    &&& !exceeds(LOW_CONFIDENCE, w.conf)
}

/// Whether a word counts.
pub fn usable_word(w: &TsvWord) -> (r: bool)
    ensures
        r == is_usable(w.row()),
{
    let v: Vec<char> = chars_of(w.text.as_str());
    if is_larger(LOW_CONFIDENCE, w.conf) {
        return false;
    }
    if v.len() == 1 {
        let c: char = char_at(&v, 0);
        c as u32 >= 128
    } else {
        v.len() >= 2
    }
}

/// Where a span of `size` from `at` on ends on a page of length `len`.
pub open spec fn end_on_page(at: int, size: int, len: int) -> int {
    if at + size < len {
        at + size
    } else {
        len
    }
}

fn end_at(at: u32, size: u32, len: u32) -> (r: u32)
    ensures
        r == end_on_page(at as int, size as int, len as int),
{
    if at as u64 + (size as u64) < len as u64 {
        at + size
    } else {
        len
    }
}

/// The part of the page that a word covers, as its left and upper side, width and height;
/// there is none where the word lies outside.
pub fn word_crop(w: &TsvWord, page_w: u32, page_h: u32) -> (r: Option<(u32, u32, u32, u32)>)
    ensures
        ({
            let right = end_on_page(w.x as int, w.width as int, page_w as int);
            let bottom = end_on_page(w.y as int, w.height as int, page_h as int);
            &&& r is None <==> w.x >= right || w.y >= bottom
            &&& r is Some ==> r->0 == (w.x, w.y, (right - w.x) as u32, (bottom - w.y) as u32)
        }),
{
    let right: u32 = end_at(w.x, w.width, page_w);
    let bottom: u32 = end_at(w.y, w.height, page_h);
    if w.x >= right || w.y >= bottom {
        None
    } else {
        Some((w.x, w.y, right - w.x, bottom - w.y))
    }
}

/// Which font has the most votes; the last of several. There is none where nobody voted.
pub fn line_winner(votes: &Vec<u32>) -> (r: Option<usize>)
    ensures
        match r {
            Some(i) => {
                &&& i < votes@.len()
                &&& votes@[i as int] > 0
                &&& forall|k: int| 0 <= k < votes@.len() ==> #[trigger] votes@[k] <= votes@[i as int]
                &&& forall|k: int| i < k < votes@.len() ==> #[trigger] votes@[k] < votes@[i as int]
            },
            None => forall|k: int| 0 <= k < votes@.len() ==> #[trigger] votes@[k] == 0,
        },
{
    let n: usize = votes.len();
    let mut best: Option<usize> = None;
    for i in 0..n
        invariant
            n == votes@.len(),
            match best {
                Some(b) => {
                    &&& b < i
                    &&& votes@[b as int] > 0
                    &&& forall|k: int| 0 <= k < i ==> #[trigger] votes@[k] <= votes@[b as int]
                    &&& forall|k: int| b < k < i ==> #[trigger] votes@[k] < votes@[b as int]
                },
                None => forall|k: int| 0 <= k < i ==> #[trigger] votes@[k] == 0,
            },
    {
        let bound: u32 = match best {
            Some(b) => votes[b],
            None => 1,
        };
        if votes[i] >= bound {
            best = Some(i);
        }
    }
    best
}

/// How many lines of each section were matched, and how many of them rightly.
pub struct Scoreboard {
    pub section: Option<usize>,
    pub correct: Vec<u64>,
    pub scored: Vec<u64>,
}

/// The numbers of a list added up.
pub open spec fn sum_of(v: Seq<u64>, n: int) -> int
    decreases n,
{
    if n <= 0 {
        0
    } else {
        sum_of(v, n - 1) + v[n - 1]
    }
}

impl Scoreboard {
    pub open spec fn wf(&self) -> bool {
        &&& self.correct@.len() == SECTION_COUNT
        &&& self.scored@.len() == SECTION_COUNT
        &&& self.section is Some ==> self.section->0 < SECTION_COUNT
        &&& forall|i: int| 0 <= i < SECTION_COUNT ==> #[trigger] self.correct@[i] <= self.scored@[i]
    }

    /// Nothing is matched yet, and no section has begun.
    pub fn new() -> (s: Scoreboard)
        ensures
            s.wf(),
            s.section is None,
            forall|i: int| 0 <= i < SECTION_COUNT ==> #[trigger] s.scored@[i] == 0,
    {
        Scoreboard { section: None, correct: vec![0, 0, 0, 0, 0], scored: vec![0, 0, 0, 0, 0] }
    }

    /// Begins the section whose heading a lower-case text is, and tells whether it is one.
    pub fn enter(&mut self, lower: &str) -> (r: bool)
        requires
            old(self).wf(),
        ensures
            final(self).wf(),
            final(self).correct@ == old(self).correct@,
            final(self).scored@ == old(self).scored@,
            r ==> final(self).section is Some && is_section_in(lower@, final(self).section),
            !r ==> final(self).section == old(self).section && is_section_in(lower@, None),
    {
        match section_in(lower) {
            Some(i) => {
                self.section = Some(i);
                true
            },
            None => false,
        }
    }

    /// Counts a line that was matched with the font of this lower-case name, and tells whether
    /// it was matched rightly. Before the first section nothing counts.
    pub fn record(&mut self, lower: &str) -> (r: Option<bool>)
        requires
            old(self).wf(),
            forall|i: int| 0 <= i < SECTION_COUNT ==> #[trigger] old(self).scored@[i] < u64::MAX,
        ensures
            final(self).wf(),
            final(self).section == old(self).section,
            match old(self).section {
                None => {
                    &&& r is None
                    &&& final(self).correct@ == old(self).correct@
                    &&& final(self).scored@ == old(self).scored@
                },
                Some(i) => {
                    let right = contains(lower@, name_of(i as int));
                    &&& r == Some(right)
                    &&& final(self).scored@ == old(self).scored@.update(
                        i as int,
                        (old(self).scored@[i as int] + 1) as u64,
                    )
                    &&& final(self).correct@ == (if right {
                        old(self).correct@.update(
                            i as int,
                            (old(self).correct@[i as int] + 1) as u64,
                        )
                    } else {
                        old(self).correct@
                    })
                },
            },
    {
        match self.section {
            None => None,
            Some(i) => {
                let right: bool = has_part(&chars_of(lower), &chars_of(section_name(i)));
                let scored: u64 = self.scored[i];
                let correct: u64 = self.correct[i];
                assert(self.correct@[i as int] <= self.scored@[i as int]);
                self.scored[i] = scored + 1;
                if right {
                    self.correct[i] = correct + 1;
                }
                Some(right)
            },
        }
    }

    /// How many lines were matched rightly, and how many were matched at all.
    pub fn totals(&self) -> (r: (u64, u64))
        requires
            self.wf(),
            sum_of(self.scored@, SECTION_COUNT as int) <= u64::MAX,
        ensures
            r.0 == sum_of(self.correct@, SECTION_COUNT as int),
            r.1 == sum_of(self.scored@, SECTION_COUNT as int),
    {
        proof {
            reveal_with_fuel(sum_of, 6);
            assert(forall|i: int| 0 <= i < 5 ==> #[trigger] self.correct@[i] <= self.scored@[i]);
            assert(self.correct@[0] <= self.scored@[0] && self.correct@[1] <= self.scored@[1]
                && self.correct@[2] <= self.scored@[2] && self.correct@[3] <= self.scored@[3]
                && self.correct@[4] <= self.scored@[4]);
        }
        let c: u64 = self.correct[0] + self.correct[1] + self.correct[2] + self.correct[3]
            + self.correct[4];
        let s: u64 = self.scored[0] + self.scored[1] + self.scored[2] + self.scored[3]
            + self.scored[4];
        (c, s)
    }
}

// --- What is measured and counted ---

/// On the common canvas, as wide and as high as the larger image, an image shows its own cells
/// where it has them and white elsewhere. The sums are those of the cells, of their squares,
/// and of the products of cells at one place.
pub proof fn law_similarity_sums(a: GrayImage, b: GrayImage, s: SsimSums, w: int, h: int)
    requires
        are_sums(a, b, s),
        a.width <= w && b.width <= w && (w == a.width || w == b.width),
        a.height <= h && b.height <= h && (h == a.height || h == b.height),
    ensures
        ({
            let p = |k: int|
                if k % w < a.width && k / w < a.height {
                    a.px(k % w, k / w) as int
                } else {
                    255
                };
            let q = |k: int|
                if k % w < b.width && k / w < b.height {
                    b.px(k % w, k / w) as int
                } else {
                    255
                };
            &&& s.cells == w * h
            &&& s.a == total(p, w * h)
            &&& s.b == total(q, w * h)
            &&& s.aa == total(|k: int| p(k) * p(k), w * h)
            &&& s.bb == total(|k: int| q(k) * q(k), w * h)
            &&& s.ab == total(|k: int| p(k) * q(k), w * h)
        }),
{
    let n = w * h;
    let p = |k: int|
        if k % w < a.width && k / w < a.height {
            a.px(k % w, k / w) as int
        } else {
            255
        };
    let q = |k: int|
        if k % w < b.width && k / w < b.height {
            b.px(k % w, k / w) as int
        } else {
            255
        };
    assert(w == larger(a.width as int, b.width as int));
    assert(h == larger(a.height as int, b.height as int));
    assert forall|k: int| #[trigger] padded_cell(a, w)(k) == p(k) by {}
    assert forall|k: int| #[trigger] padded_cell(b, w)(k) == q(k) by {}
    lemma_total_same(padded_cell(a, w), p, n);
    lemma_total_same(padded_cell(b, w), q, n);
    lemma_total_same(cell_product(a, a, w), |k: int| p(k) * p(k), n);
    lemma_total_same(cell_product(b, b, w), |k: int| q(k) * q(k), n);
    lemma_total_same(cell_product(a, b, w), |k: int| p(k) * q(k), n);
}

/// The best of scores is the first that no other exceeds; what is no number, and what does not
/// exceed the least finite number, is never best. There is none only where no score is better
/// than that.
pub proof fn law_first_best(scores: Seq<u32>, r: Option<usize>, k: int)
    requires
        is_first_best(scores, r),
        0 <= k < scores.len(),
    ensures
        r is None ==> is_nan(scores[k]) || float_key(scores[k]) <= float_key(0xff7f_ffff),
        r matches Some(i) ==> {
            &&& i < scores.len()
            &&& !is_nan(scores[i as int]) && float_key(scores[i as int]) > float_key(0xff7f_ffff)
            &&& is_nan(scores[k]) || float_key(scores[k]) <= float_key(scores[i as int])
            &&& k < i ==> is_nan(scores[k]) || float_key(scores[k]) < float_key(scores[i as int])
        },
{
}

/// A line of the table is a word if it has twelve columns, is of level five, has a text that is
/// not blank, a confidence that is not negative, and is at least three cells wide and high.
/// Place and size, block, paragraph and line come from their columns, and the text is the last.
pub proof fn law_word_of_line(line: Seq<char>, conf: u32)
    ensures
        ({
            let c = split(line, '\t');
            let r = word_of_line(line, conf);
            &&& r is Some <==> c.len() >= 12 && column_value(c[0]) == 5 && trim(c[11]).len() > 0
                && !exceeds(0, conf) && column_value(c[8]) >= 3 && column_value(c[9]) >= 3
            &&& r matches Some(w) ==> {
                &&& w.text == trim(c[11]) && w.conf == conf
                &&& w.x == column_value(c[6]) && w.y == column_value(c[7])
                &&& w.width == column_value(c[8]) && w.height == column_value(c[9])
                &&& w.line == (column_value(c[2]), column_value(c[3]), column_value(c[4]))
            }
        }),
{
}

/// The heading gives no word, and every line behind it gives its word, if it is one, with the
/// confidence of its own place; a line without confidence has minus one.
pub proof fn law_words_read(rows: Seq<Seq<char>>, confs: Seq<u32>, n: int)
    requires
        1 <= n < rows.len(),
    ensures
        words_before(rows, confs, 1).len() == 0,
        ({
            let conf = if n - 1 < confs.len() {
                confs[n - 1]
            } else {
                0xbf80_0000
            };
            words_before(rows, confs, n + 1) == (match word_of_line(rows[n], conf) {
                Some(w) => words_before(rows, confs, n).push(w),
                None => words_before(rows, confs, n),
            })
        }),
{
}

/// A word counts if its text is longer than one byte and its confidence is not below fifty.
pub proof fn law_usable(w: WordRow)
    ensures
        is_usable(w) <==> (w.text.len() > 1 || (w.text.len() == 1 && w.text[0] as u32 > 127))
            && !exceeds(0x4248_0000, w.conf),
{
}

/// A span ends where it ends or where the page does, whichever comes first.
pub proof fn law_end_on_page(at: int, size: int, len: int, x: int)
    requires
        at <= x,
    ensures
        x < end_on_page(at, size, len) <==> x < at + size && x < len,
{
}

/// The words of a line stand from left to right.
pub proof fn law_words_left_to_right(
    words: Seq<TsvWord>,
    order: Seq<usize>,
    l: Seq<TextLine>,
    i: int,
    j: int,
    k: int,
)
    requires
        is_stable_order(line_keys(words), order),
        are_lines(reordered(words, order), l),
        0 <= i < l.len(),
        0 <= j < k < l[i].words@.len(),
    ensures
        l[i].words@[j].x <= l[i].words@[k].x,
{
    let n = l.len() as int;
    lemma_flat_at(l, n, i, j);
    lemma_flat_at(l, n, i, k);
    let a = flat(l, i).len() + j;
    let b = flat(l, i).len() + k;
    let keys = line_keys(words);
    let v = reordered(words, order);
    assert(v[a] == l[i].words@[j].row() && v[b] == l[i].words@[k].row());
    assert(crate::sorting::goes_before(keys, order[a] as int, order[b] as int));
    assert(keys[order[a] as int] == word_key(v[a]));
    assert(keys[order[b] as int] == word_key(v[b]));
    assert(is_line(l[i]));
    assert(l[i].words@[j].row().line == l[i].words@[k].row().line);
    let p = word_key(v[a]);
    let q = word_key(v[b]);
    if l[i].words@[j].x > l[i].words@[k].x {
        crate::sorting::law_lexicographic(q, p, 3);
        assert(false);
    }
}

/// The numbers of the five sections are added up.
pub proof fn law_totals(s: Scoreboard)
    requires
        s.wf(),
    ensures
        sum_of(s.correct@, SECTION_COUNT as int) == s.correct@[0] + s.correct@[1] + s.correct@[2]
            + s.correct@[3] + s.correct@[4],
        sum_of(s.scored@, SECTION_COUNT as int) == s.scored@[0] + s.scored@[1] + s.scored@[2]
            + s.scored@[3] + s.scored@[4],
        sum_of(s.correct@, SECTION_COUNT as int) <= sum_of(s.scored@, SECTION_COUNT as int),
{
    reveal_with_fuel(sum_of, 6);
    assert(s.correct@[0] <= s.scored@[0] && s.correct@[1] <= s.scored@[1] && s.correct@[2]
        <= s.scored@[2] && s.correct@[3] <= s.scored@[3] && s.correct@[4] <= s.scored@[4]);
}

/// The section of a heading is the first of Garamond, Caslon, Baskerville, Bodoni and the slab
/// serifs that it names; a text that names none is no heading. The fonts of a section have its
/// name in theirs.
pub proof fn law_sections(lower: Seq<char>, r: Option<usize>)
    requires
        is_section_in(lower, r),
    ensures
        r == (if contains(lower, "the garamond"@) {
            Some(0usize)
        } else if contains(lower, "the caslon"@) {
            Some(1usize)
        } else if contains(lower, "the baskerville"@) {
            Some(2usize)
        } else if contains(lower, "the bodoni"@) {
            Some(3usize)
        } else if contains(lower, "the slab serif"@) {
            Some(4usize)
        } else {
            None
        }),
        is_section_name(lower) <==> lower == "garamond"@ || lower == "caslon"@ || lower
            == "baskerville"@ || lower == "bodoni"@ || lower == "zilla"@,
{
    assert(heading_of(0) == "the garamond"@);
    assert(heading_of(1) == "the caslon"@);
    assert(heading_of(2) == "the baskerville"@);
    assert(heading_of(3) == "the bodoni"@);
    assert(heading_of(4) == "the slab serif"@);
    assert(contains(lower, heading_of(0)) == contains(lower, "the garamond"@));
    assert(contains(lower, heading_of(1)) == contains(lower, "the caslon"@));
    assert(contains(lower, heading_of(2)) == contains(lower, "the baskerville"@));
    assert(contains(lower, heading_of(3)) == contains(lower, "the bodoni"@));
    assert(contains(lower, heading_of(4)) == contains(lower, "the slab serif"@));
    assert(name_of(0) == "garamond"@);
    assert(name_of(1) == "caslon"@);
    assert(name_of(2) == "baskerville"@);
    assert(name_of(3) == "bodoni"@);
    assert(name_of(4) == "zilla"@);
}

/// The confidence of a line is its eleventh column, where there are twelve at least.
pub proof fn law_conf_text(cols: Seq<Seq<char>>)
    requires
        cols.len() > 0,
        forall|i: int| 0 <= i < cols.len() ==> !(#[trigger] cols[i]).contains('\t'),
    ensures
        cols.len() >= 12 ==> conf_text(join(cols, '\t')) == cols[10],
        cols.len() < 12 ==> conf_text(join(cols, '\t')).len() == 0,
{
    law_join_split(cols, '\t');
}

/// Words stand in the order of their blocks, paragraphs and lines, and in a line from left to
/// right.
pub proof fn law_word_key(v: TsvWord, u: TsvWord)
    ensures
        ({
            let a = v.row();
            let b = u.row();
            let ahead = lex_le(word_key(a), word_key(b)) && !lex_le(word_key(b), word_key(a));
            &&& a.line.0 < b.line.0 ==> ahead
            &&& a.line.0 == b.line.0 && a.line.1 < b.line.1 ==> ahead
            &&& a.line.0 == b.line.0 && a.line.1 == b.line.1 && a.line.2 < b.line.2 ==> ahead
            &&& a.line == b.line && a.x < b.x ==> ahead
        }),
{
    let x = word_key(v.row());
    let y = word_key(u.row());
    law_lexicographic(x, y, 0);
    if x[0] == y[0] {
        law_lexicographic(x, y, 1);
        if x[1] == y[1] {
            law_lexicographic(x, y, 2);
            if x[2] == y[2] {
                law_lexicographic(x, y, 3);
            }
        }
    }
}


} // verus!
