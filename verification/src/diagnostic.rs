//! The report on how the fonts of a document were matched, as a web page.

use vstd::prelude::*;
use vstd::string::*;
use crate::float_bits::{exceeds, is_larger};
use crate::text::{
    alphanumeric, char_at, chars_of, contains, copy_of, decimal, has_part, is_alphanumeric, join,
    joined, law_join_split, law_split_joined, same_text, split, split_chars, text_of, to_decimal,
    views,
};

verus! {

// --- Escaping ---

/// A character as it stands in the text of a web page.
pub open spec fn escaped_char(c: char) -> Seq<char> {
    if c == '&' {
        "&amp;"@
    } else if c == '<' {
        "&lt;"@
    } else if c == '>' {
        "&gt;"@
    } else if c == '"' {
        "&quot;"@
    } else {
        seq![c]
    }
}

/// The first `n` characters of a text as they stand in a web page.
pub open spec fn escaped(s: Seq<char>, n: int) -> Seq<char>
    decreases n,
{
    if n <= 0 {
        Seq::empty()
    } else {
        escaped(s, n - 1) + escaped_char(s[n - 1])
    }
}

/// A text as it stands in a web page.
pub fn html_escape(s: &str) -> (r: String)
    ensures
        r@ == escaped(s@, s@.len() as int),
{
    let v: Vec<char> = chars_of(s);
    let n: usize = v.len();
    let mut out: String = copy_of("");
    proof {
        reveal_strlit("");
        assert(out@ =~= escaped(s@, 0));
    }
    for i in 0..n
        invariant
            n == v@.len(),
            v@ == s@,
            out@ == escaped(s@, i as int),
    {
        let c: char = char_at(&v, i);
        if c == '&' {
            out.append("&amp;");
        } else if c == '<' {
            out.append("&lt;");
        } else if c == '>' {
            out.append("&gt;");
        } else if c == '"' {
            out.append("&quot;");
        } else {
            let ghost before = out@;
            out.push(c);
            assert(out@ =~= before + escaped_char(c));
        }
    }
    out
}

/// What an escaped text stands for.
pub open spec fn unescaped(s: Seq<char>) -> Seq<char>
    decreases s.len(),
{
    if s.len() == 0 {
        Seq::empty()
    } else if s.len() >= 5 && s.take(5) == seq!['&', 'a', 'm', 'p', ';'] {
        seq!['&'] + unescaped(s.skip(5))
    } else if s.len() >= 4 && s.take(4) == seq!['&', 'l', 't', ';'] {
        seq!['<'] + unescaped(s.skip(4))
    } else if s.len() >= 4 && s.take(4) == seq!['&', 'g', 't', ';'] {
        seq!['>'] + unescaped(s.skip(4))
    } else if s.len() >= 6 && s.take(6) == seq!['&', 'q', 'u', 'o', 't', ';'] {
        seq!['"'] + unescaped(s.skip(6))
    } else {
        seq![s[0]] + unescaped(s.skip(1))
    }
}

proof fn lemma_entities()
    ensures
        "&amp;"@ == seq!['&', 'a', 'm', 'p', ';'],
        "&lt;"@ == seq!['&', 'l', 't', ';'],
        "&gt;"@ == seq!['&', 'g', 't', ';'],
        "&quot;"@ == seq!['&', 'q', 'u', 'o', 't', ';'],
{
    reveal_strlit("&amp;");
    reveal_strlit("&lt;");
    reveal_strlit("&gt;");
    reveal_strlit("&quot;");
    assert("&amp;"@ =~= seq!['&', 'a', 'm', 'p', ';']);
    assert("&lt;"@ =~= seq!['&', 'l', 't', ';']);
    assert("&gt;"@ =~= seq!['&', 'g', 't', ';']);
    assert("&quot;"@ =~= seq!['&', 'q', 'u', 'o', 't', ';']);
}

/// No bracket and no quotation mark is left in an escaped text.
pub proof fn law_escape_safe(s: Seq<char>, n: int)
    requires
        0 <= n <= s.len(),
    ensures
        forall|i: int|
            0 <= i < escaped(s, n).len() ==> (#[trigger] escaped(s, n)[i]) != '<' && escaped(
                s,
                n,
            )[i] != '>' && escaped(s, n)[i] != '"',
    decreases n,
{
    if n > 0 {
        law_escape_safe(s, n - 1);
        lemma_entities();
        let before = escaped(s, n - 1);
        let e = escaped_char(s[n - 1]);
        assert forall|i: int| 0 <= i < e.len() implies (#[trigger] e[i]) != '<' && e[i] != '>'
            && e[i] != '"' by {}
        assert forall|i: int| 0 <= i < escaped(s, n).len() implies (#[trigger] escaped(s, n)[i])
            != '<' && escaped(s, n)[i] != '>' && escaped(s, n)[i] != '"' by {
            if i < before.len() {
                assert(escaped(s, n)[i] == before[i]);
            } else {
                assert(escaped(s, n)[i] == e[i - before.len()]);
            }
        }
    }
}

/// The characters of a text from `k` on, escaped.
pub open spec fn escaped_from(s: Seq<char>, k: int) -> Seq<char>
    decreases s.len() - k,
{
    if k >= s.len() || k < 0 {
        Seq::empty()
    } else {
        escaped_char(s[k]) + escaped_from(s, k + 1)
    }
}

proof fn lemma_escaped_split(s: Seq<char>, k: int)
    requires
        0 <= k <= s.len(),
    ensures
        escaped(s, s.len() as int) == escaped(s, k) + escaped_from(s, k),
    decreases s.len() - k,
{
    if k < s.len() {
        lemma_escaped_split(s, k + 1);
        assert(escaped(s, k) + escaped_char(s[k]) + escaped_from(s, k + 1) =~= escaped(s, k) + (
        escaped_char(s[k]) + escaped_from(s, k + 1)));
    } else {
        assert(escaped(s, k) + Seq::<char>::empty() =~= escaped(s, k));
    }
}

proof fn lemma_unescape_from(s: Seq<char>, k: int)
    requires
        0 <= k <= s.len(),
    ensures
        unescaped(escaped_from(s, k)) == s.skip(k),
    decreases s.len() - k,
{
    if k < s.len() {
        lemma_unescape_from(s, k + 1);
        lemma_entities();
        let c = s[k];
        let e = escaped_char(c);
        let rest = escaped_from(s, k + 1);
        let t = e + rest;
        assert(t.take(e.len() as int) =~= e);
        assert(t.skip(e.len() as int) =~= rest);
        if c == '&' {
            assert(t.take(5) == e);
        } else if c == '<' {
            assert(t.len() >= 5 ==> t.take(5)[1] == 'l');
            assert(t.take(4) == e);
        } else if c == '>' {
            assert(t.len() >= 5 ==> t.take(5)[1] == 'g');
            assert(t.take(4)[1] == 'g');
            assert(t.take(4) == e);
        } else if c == '"' {
            assert(t.take(5)[1] == 'q');
            assert(t.take(4)[1] == 'q');
            assert(t.take(6) == e);
        } else {
            assert(t[0] == c);
            assert(t.len() >= 5 ==> t.take(5)[0] == c);
            assert(t.len() >= 4 ==> t.take(4)[0] == c);
            assert(t.len() >= 6 ==> t.take(6)[0] == c);
        }
        assert(unescaped(t) == seq![c] + unescaped(rest));
        assert(seq![c] + s.skip(k + 1) =~= s.skip(k));
    } else {
        assert(s.skip(k) =~= Seq::<char>::empty());
    }
}

/// An escaped text stands for the text that it was made from.
pub proof fn law_escape_round_trip(s: Seq<char>)
    ensures
        unescaped(escaped(s, s.len() as int)) == s,
{
    lemma_escaped_split(s, 0);
    lemma_unescape_from(s, 0);
    assert(escaped(s, 0) + escaped_from(s, 0) =~= escaped_from(s, 0));
    assert(s.skip(0) =~= s);
}

// --- Base64 ---

/// The character for six bits.
pub open spec fn b64_char(v: int) -> char {
    if v < 26 {
        (65 + v) as u8 as char
    } else if v < 52 {
        (71 + v) as u8 as char
    } else if v < 62 {
        (v - 4) as u8 as char
    } else if v == 62 {
        '+'
    } else {
        '/'
    }
}

/// The six bits of a character.
pub open spec fn b64_value(c: char) -> int {
    let u = c as u32;
    if 65 <= u <= 90 {
        u - 65
    } else if 97 <= u <= 122 {
        u - 71
    } else if 48 <= u <= 57 {
        u + 4
    } else if c == '+' {
        62
    } else {
        63
    }
}

/// Byte `i`, or zero behind the end.
pub open spec fn byte_at(d: Seq<u8>, i: int) -> int {
    if i < d.len() {
        d[i] as int
    } else {
        0
    }
}

/// Character `k` of the base64 form of bytes: three bytes become four characters, and what
/// is missing of the last three bytes is filled up with `=`.
pub open spec fn b64_at(d: Seq<u8>, k: int) -> char {
    let i = 3 * (k / 4);
    let b0 = byte_at(d, i);
    let b1 = byte_at(d, i + 1);
    let b2 = byte_at(d, i + 2);
    if k % 4 == 0 {
        b64_char(b0 / 4)
    } else if k % 4 == 1 {
        b64_char((b0 % 4) * 16 + b1 / 16)
    } else if k % 4 == 2 {
        if i + 1 < d.len() {
            b64_char((b1 % 16) * 4 + b2 / 64)
        } else {
            '='
        }
    } else {
        if i + 2 < d.len() {
            b64_char(b2 % 64)
        } else {
            '='
        }
    }
}

/// The base64 form of bytes.
pub open spec fn base64(d: Seq<u8>) -> Seq<char> {
    Seq::new((4 * ((d.len() + 2) / 3)) as nat, |k: int| b64_at(d, k))
}

fn six_bits(v: u32) -> (c: char)
    requires
        v < 64,
    ensures
        c == b64_char(v as int),
{
    let b: u8 = v as u8;
    if b < 26 {
        (65 + b) as char
    } else if b < 52 {
        (71 + b) as char
    } else if b < 62 {
        (b - 4) as char
    } else if b == 62 {
        '+'
    } else {
        '/'
    }
}

/// The base64 form of bytes.
pub fn b64_encode(data: &[u8]) -> (r: String)
    ensures
        r@ == base64(data@),
{
    let n: usize = data.len();
    let mut out: Vec<char> = Vec::new();
    let mut i: usize = 0;
    while i < n
        invariant
            n == data@.len(),
            i <= n || i < n + 3,
            i % 3 == 0,
            i <= n ==> out@.len() == 4 * (i / 3),
            i > n ==> out@.len() == 4 * ((n + 2) / 3),
            out@.len() <= 4 * ((n + 2) / 3),
            forall|k: int| 0 <= k < out@.len() ==> #[trigger] out@[k] == b64_at(data@, k),
            i >= n ==> out@.len() == 4 * ((n + 2) / 3),
        decreases n - i,
    {
        let ghost before = out@;
        let ghost base = 4 * (i as int / 3);
        let b0: u32 = data[i] as u32;
        let two: bool = n - i > 1;
        let three: bool = n - i > 2;
        let b1: u32 = if two {
            data[i + 1] as u32
        } else {
            0
        };
        let b2: u32 = if three {
            data[i + 2] as u32
        } else {
            0
        };
        out.push(six_bits(b0 / 4));
        out.push(six_bits((b0 % 4) * 16 + b1 / 16));
        if two {
            out.push(six_bits((b1 % 16) * 4 + b2 / 64));
        } else {
            out.push('=');
        }
        if three {
            out.push(six_bits(b2 % 64));
        } else {
            out.push('=');
        }
        proof {
            assert forall|k: int| 0 <= k < out@.len() implies #[trigger] out@[k] == b64_at(
                data@,
                k,
            ) by {
                if k < before.len() {
                    assert(out@[k] == before[k]);
                } else {
                    assert(k / 4 == i as int / 3);
                    assert(3 * (k / 4) == i);
                }
            }
        }
        if three {
            i = i + 3;
        } else {
            assert(out@.len() == 4 * ((n + 2) / 3));
            let r: String = text_of(&out);
            assert(r@ =~= base64(data@));
            return r;
        }
    }
    assert(out@ =~= base64(data@));
    text_of(&out)
}

/// Byte `i` of what a base64 text stands for.
pub open spec fn b64_byte(s: Seq<char>, i: int) -> int {
    let k = 4 * (i / 3);
    let v0 = b64_value(s[k]);
    let v1 = b64_value(s[k + 1]);
    let v2 = b64_value(s[k + 2]);
    let v3 = b64_value(s[k + 3]);
    if i % 3 == 0 {
        v0 * 4 + v1 / 16
    } else if i % 3 == 1 {
        (v1 % 16) * 16 + v2 / 4
    } else {
        (v2 % 4) * 64 + v3
    }
}

proof fn lemma_b64_value(v: int)
    requires
        0 <= v < 64,
    ensures
        b64_value(b64_char(v)) == v,
{
}

/// The base64 form of bytes stands for the bytes.
pub proof fn law_base64_round_trip(d: Seq<u8>, i: int)
    requires
        0 <= i < d.len(),
    ensures
        b64_byte(base64(d), i) == d[i],
        base64(d).len() == 4 * ((d.len() + 2) / 3),
{
    let s = base64(d);
    let g = i / 3;
    let k = 4 * g;
    let b0 = byte_at(d, 3 * g);
    let b1 = byte_at(d, 3 * g + 1);
    let b2 = byte_at(d, 3 * g + 2);
    assert(k + 3 < s.len());
    assert(k / 4 == g && (k + 1) / 4 == g && (k + 2) / 4 == g && (k + 3) / 4 == g);
    assert(s[k] == b64_char(b0 / 4));
    assert(s[k + 1] == b64_char((b0 % 4) * 16 + b1 / 16));
    lemma_b64_value(b0 / 4);
    lemma_b64_value((b0 % 4) * 16 + b1 / 16);
    if 3 * g + 1 < d.len() {
        assert(s[k + 2] == b64_char((b1 % 16) * 4 + b2 / 64));
        lemma_b64_value((b1 % 16) * 4 + b2 / 64);
    }
    if 3 * g + 2 < d.len() {
        assert(s[k + 3] == b64_char(b2 % 64));
        lemma_b64_value(b2 % 64);
    }
}

/// What stands in the page for an image: its bytes, or its path where it cannot be read.
pub fn img_data_uri(rel_path: &str, bytes: Option<&[u8]>) -> (r: String)
    ensures
        r@ == (if rel_path@.len() == 0 {
            Seq::empty()
        } else {
            match bytes {
                Some(b) => "data:image/png;base64,"@ + base64(b@),
                None => rel_path@,
            }
        }),
{
    if chars_of(rel_path).len() == 0 {
        let r: String = copy_of("");
        proof {
            reveal_strlit("");
            assert(r@ =~= Seq::<char>::empty());
        }
        return r;
    }
    match bytes {
        Some(b) => joined("data:image/png;base64,", b64_encode(b).as_str()),
        None => copy_of(rel_path),
    }
}

// --- Names of image files ---

/// A word as a part of a file name: its first fifteen characters, with all replaced that are
/// no letters or digits.
pub open spec fn word_part(s: Seq<char>) -> Seq<char> {
    Seq::new(
        if s.len() < 15 {
            s.len()
        } else {
            15
        },
        |i: int|
            if alphanumeric(s[i]) {
                s[i]
            } else {
                '_'
            },
    )
}

/// A font file's name as a part of a file name.
pub open spec fn font_part(s: Seq<char>) -> Seq<char> {
    Seq::new(
        s.len(),
        |i: int|
            if alphanumeric(s[i]) || s[i] == '-' || s[i] == '_' || s[i] == '.' {
                s[i]
            } else {
                '_'
            },
    )
}

/// What follows the last slash.
pub open spec fn last_part(s: Seq<char>) -> Seq<char> {
    split(s, '/').last()
}

fn base_name(s: &str) -> (r: Vec<char>)
    ensures
        r@ == last_part(s@),
{
    let v: Vec<char> = chars_of(s);
    let parts: Vec<Vec<char>> = split_chars(&v, '/');
    let n: usize = parts.len();
    proof {
        crate::text::lemma_split_nonempty(s@, '/');
        assert(views(parts@).len() == n);
        assert(views(parts@)[n - 1] == parts@[n - 1]@);
    }
    let r: Vec<char> = crate::text::slice_of(&parts[n - 1], 0, parts[n - 1].len());
    assert(r@ =~= last_part(s@));
    r
}

fn place(page: u64, line: u64, word: u64) -> (r: String)
    ensures
        r@ == "p"@ + decimal(page as nat) + "_l"@ + decimal(line as nat) + "_w"@ + decimal(
            word as nat,
        ) + "_"@,
{
    let mut s: String = copy_of("p");
    s.append(text_of(&to_decimal(page)).as_str());
    s.append("_l");
    s.append(text_of(&to_decimal(line)).as_str());
    s.append("_w");
    s.append(text_of(&to_decimal(word)).as_str());
    s.append("_");
    s
}

/// The path of the image of a word, below the directory of the report.
pub fn crop_path(page: u64, line: u64, word: u64, text: &str) -> (r: String)
    ensures
        r@ == "crops/"@ + ("p"@ + decimal(page as nat) + "_l"@ + decimal(line as nat) + "_w"@
            + decimal(word as nat) + "_"@) + word_part(text@) + ".png"@,
{
    let v: Vec<char> = chars_of(text);
    let n: usize = if v.len() < 15 {
        v.len()
    } else {
        15
    };
    let mut safe: Vec<char> = Vec::new();
    for i in 0..n
        invariant
            n <= v@.len(),
            safe@.len() == i,
            forall|k: int|
                0 <= k < i ==> #[trigger] safe@[k] == (if alphanumeric(v@[k]) {
                    v@[k]
                } else {
                    '_'
                }),
    {
        let c: char = char_at(&v, i);
        if is_alphanumeric(c) {
            safe.push(c);
        } else {
            safe.push('_');
        }
    }
    assert(safe@ =~= word_part(text@));
    let mut s: String = copy_of("crops/");
    s.append(place(page, line, word).as_str());
    s.append(text_of(&safe).as_str());
    s.append(".png");
    s
}

/// The path of the image of a word in a font, below the directory of the report.
pub fn render_path(page: u64, line: u64, word: u64, font_key: &str) -> (r: String)
    ensures
        r@ == "renders/"@ + ("p"@ + decimal(page as nat) + "_l"@ + decimal(line as nat) + "_w"@
            + decimal(word as nat) + "_"@) + font_part(last_part(font_key@)) + ".png"@,
{
    let v: Vec<char> = base_name(font_key);
    let n: usize = v.len();
    let mut safe: Vec<char> = Vec::new();
    for i in 0..n
        invariant
            n == v@.len(),
            safe@.len() == i,
            forall|k: int|
                0 <= k < i ==> #[trigger] safe@[k] == (if alphanumeric(v@[k]) || v@[k] == '-'
                    || v@[k] == '_' || v@[k] == '.' {
                    v@[k]
                } else {
                    '_'
                }),
    {
        let c: char = char_at(&v, i);
        if is_alphanumeric(c) || c == '-' || c == '_' || c == '.' {
            safe.push(c);
        } else {
            safe.push('_');
        }
    }
    assert(safe@ =~= font_part(last_part(font_key@)));
    let mut s: String = copy_of("renders/");
    s.append(place(page, line, word).as_str());
    s.append(text_of(&safe).as_str());
    s.append(".png");
    s
}

// --- What a report is made of ---

/// A font that the index proposes for a line: its key, its score and the distance to the
/// best score, as they are shown.
pub struct CiCandidate {
    pub font_key: String,
    pub score: String,
    pub gap: String,
}

/// A font that was compared with a word.
pub struct WordCandidateScore {
    pub font_key: String,
    /// The similarity, and how it and its distance to the best one are shown.
    pub ssim: u32,
    pub ssim_text: String,
    pub gap_text: String,
    pub dy_text: String,
    pub image: String,
}

/// A word and the fonts that it was compared with.
pub struct WordDiag {
    pub text: String,
    pub width: u64,
    pub height: u64,
    pub image: String,
    pub candidates: Vec<WordCandidateScore>,
    pub winner: Option<String>,
}

/// A line and its font.
pub struct LineDiag {
    pub text: String,
    pub confidence: String,
    pub ci_candidates: Vec<CiCandidate>,
    pub words: Vec<WordDiag>,
    pub word_rerank_winner: Option<String>,
    pub final_font: Option<String>,
    pub final_score: Option<String>,
}

/// A page and its lines.
pub struct PageDiag {
    pub page_num: u64,
    pub lines: Vec<LineDiag>,
}

/// How the thoroughness of the search and what follows from it are shown.
pub struct SearchNote {
    pub thoroughness: String,
    pub radius: String,
    pub gate: String,
}

// --- The page ---

/// How the web page begins.
pub const PAGE_HEAD: &'static str = "<!DOCTYPE html>\n<html><head><meta charset=\"utf-8\">\n<title>unscan diagnostic</title>\n<style>\n* { box-sizing: border-box; }\nbody { font-family: system-ui, -apple-system, sans-serif; background: #0d1117; color: #c9d1d9; margin: 0; padding: 20px; }\nh1 { color: #58a6ff; border-bottom: 1px solid #30363d; padding-bottom: 12px; }\nh2 { color: #f0883e; margin-top: 40px; }\n\n.line-block { background: #161b22; border: 1px solid #30363d; border-radius: 8px; padding: 16px; margin: 16px 0; }\n.line-block.correct { border-left: 4px solid #3fb950; }\n.line-block.wrong { border-left: 4px solid #f85149; }\n.line-block.unknown { border-left: 4px solid #8b949e; }\n.line-text { font-size: 14px; color: #e6edf3; font-weight: 600; margin-bottom: 8px; }\n.line-meta { font-size: 12px; color: #8b949e; margin-bottom: 12px; }\n.line-meta b { color: #c9d1d9; }\n\n.ci-table { border-collapse: collapse; font-size: 12px; margin: 8px 0; }\n.ci-table th { background: #21262d; color: #8b949e; padding: 4px 10px; text-align: left; border: 1px solid #30363d; }\n.ci-table td { padding: 4px 10px; border: 1px solid #30363d; }\n.ci-table tr.highlight { background: #1a3a1a; }\n\ndetails { margin: 8px 0; }\nsummary { cursor: pointer; color: #58a6ff; font-size: 13px; }\nsummary:hover { text-decoration: underline; }\n\n.words-grid { display: flex; flex-direction: column; gap: 12px; margin-top: 12px; }\n.word-entry { background: #0d1117; border: 1px solid #30363d; border-radius: 6px; padding: 12px; }\n.word-entry h4 { margin: 0 0 8px 0; font-size: 13px; color: #58a6ff; }\n.word-images { display: flex; flex-wrap: wrap; gap: 12px; align-items: flex-end; }\n.word-img-cell { text-align: center; }\n.word-img-cell img { display: block; border: 2px solid #30363d; background: #fff; image-rendering: auto;\n    max-height: 60px; min-width: 40px; }\n.word-img-cell img.crop { border-color: #58a6ff; }\n.word-img-cell img.winner { border-color: #f85149; }\n.word-img-cell img.rank0 { border-color: #f0883e; }\n.word-img-cell .label { font-size: 10px; color: #8b949e; margin-top: 2px; max-width: 120px; overflow: hidden; text-overflow: ellipsis; white-space: nowrap; }\n.word-img-cell .ssim { font-size: 11px; font-weight: 700; }\n.word-img-cell .ssim.high { color: #3fb950; }\n.word-img-cell .ssim.mid { color: #d29922; }\n.word-img-cell .ssim.low { color: #f85149; }\n\n.vote-bar { display: flex; gap: 4px; margin-top: 8px; align-items: center; flex-wrap: wrap; }\n.vote-chip { font-size: 11px; padding: 2px 8px; border-radius: 12px; background: #21262d; border: 1px solid #30363d; }\n.vote-chip.top { background: #f851491a; border-color: #f85149; color: #f85149; }\n\n.filter-bar { position: sticky; top: 0; background: #0d1117; padding: 12px 0; z-index: 10; border-bottom: 1px solid #30363d; margin-bottom: 20px; }\n.filter-bar label { font-size: 13px; margin-right: 16px; cursor: pointer; }\n.filter-bar input { margin-right: 4px; }\n\n.stats { display: flex; gap: 24px; margin: 16px 0; font-size: 14px; }\n.stat { background: #161b22; border: 1px solid #30363d; border-radius: 6px; padding: 12px 20px; }\n.stat .num { font-size: 28px; font-weight: 700; }\n.stat .lbl { font-size: 12px; color: #8b949e; }\n</style>\n</head><body>\n<h1>unscan diagnostic report</h1>\n";

/// The boxes to choose which lines are shown.
pub const FILTER_BAR: &'static str = "<div class=\"filter-bar\">\n<label><input type=\"checkbox\" id=\"show-all\" checked onchange=\"toggleFilter()\"> Show all lines</label>\n<label><input type=\"checkbox\" id=\"show-matched\" checked onchange=\"toggleFilter()\"> Matched</label>\n<label><input type=\"checkbox\" id=\"show-unmatched\" checked onchange=\"toggleFilter()\"> Unmatched</label>\n</div>";

/// How the web page ends.
pub const PAGE_TAIL: &'static str = "<script>\nfunction toggleFilter() {\n    const all = document.getElementById('show-all').checked;\n    const matched = document.getElementById('show-matched').checked;\n    const unmatched = document.getElementById('show-unmatched').checked;\n    document.querySelectorAll('.line-block').forEach(el => {\n        const m = el.dataset.matched === 'yes';\n        el.style.display = (all || (matched && m) || (unmatched && !m)) ? '' : 'none';\n    });\n}\n</script></body></html>";

pub open spec fn esc(s: Seq<char>) -> Seq<char> {
    escaped(s, s.len() as int)
}

pub open spec fn note_html(t: SearchNote) -> Seq<char> {
    "<div class=\"summary\"><strong>thoroughness: "@ + t.thoroughness@
        + "</strong> &mdash;\nkd-tree radius factor: "@ + t.radius@ + ", quality gate: "@ + t.gate@
        + ", quorum divisor: "@ + t.thoroughness@ + "</div>"@
}

fn note(t: &SearchNote) -> (r: String)
    ensures
        r@ == note_html(*t),
{
    let mut s: String = copy_of("<div class=\"summary\"><strong>thoroughness: ");
    s.append(t.thoroughness.as_str());
    s.append("</strong> &mdash;\nkd-tree radius factor: ");
    s.append(t.radius.as_str());
    s.append(", quality gate: ");
    s.append(t.gate.as_str());
    s.append(", quorum divisor: ");
    s.append(t.thoroughness.as_str());
    s.append("</div>");
    s
}

/// How many lines the first `n` pages have.
pub open spec fn line_count(pages: Seq<PageDiag>, n: int) -> int
    decreases n,
{
    if n <= 0 {
        0
    } else {
        line_count(pages, n - 1) + pages[n - 1].lines@.len()
    }
}

/// How many words the first `n` lines have.
pub open spec fn words_in(lines: Seq<LineDiag>, n: int) -> int
    decreases n,
{
    if n <= 0 {
        0
    } else {
        words_in(lines, n - 1) + lines[n - 1].words@.len()
    }
}

/// How many words the first `n` pages have.
pub open spec fn word_count(pages: Seq<PageDiag>, n: int) -> int
    decreases n,
{
    if n <= 0 {
        0
    } else {
        word_count(pages, n - 1) + words_in(pages[n - 1].lines@, pages[n - 1].lines@.len() as int)
    }
}

/// How many of the first `n` lines have a font.
pub open spec fn matched_in(lines: Seq<LineDiag>, n: int) -> int
    decreases n,
{
    if n <= 0 {
        0
    } else {
        matched_in(lines, n - 1) + if lines[n - 1].final_font is Some {
            1int
        } else {
            0
        }
    }
}

/// How many lines of the first `n` pages have a font.
pub open spec fn matched_count(pages: Seq<PageDiag>, n: int) -> int
    decreases n,
{
    if n <= 0 {
        0
    } else {
        matched_count(pages, n - 1) + matched_in(
            pages[n - 1].lines@,
            pages[n - 1].lines@.len() as int,
        )
    }
}

/// The counts can be held in a number.
pub open spec fn counts_fit(pages: Seq<PageDiag>) -> bool {
    &&& line_count(pages, pages.len() as int) <= u64::MAX
    &&& word_count(pages, pages.len() as int) <= u64::MAX
}

proof fn lemma_counts(pages: Seq<PageDiag>, m: int, n: int)
    requires
        0 <= m <= n,
    ensures
        0 <= line_count(pages, m) <= line_count(pages, n),
        0 <= word_count(pages, m) <= word_count(pages, n),
        0 <= matched_count(pages, m) <= line_count(pages, m),
    decreases n, m,
{
    if m < n {
        lemma_counts(pages, m, n - 1);
        lemma_line_counts(
            pages[n - 1].lines@,
            pages[n - 1].lines@.len() as int,
            pages[n - 1].lines@.len() as int,
        );
    } else if m > 0 {
        lemma_counts(pages, m - 1, m - 1);
        lemma_line_counts(
            pages[m - 1].lines@,
            pages[m - 1].lines@.len() as int,
            pages[m - 1].lines@.len() as int,
        );
    }
}

proof fn lemma_line_counts(lines: Seq<LineDiag>, m: int, n: int)
    requires
        0 <= m <= n <= lines.len(),
    ensures
        0 <= words_in(lines, m) <= words_in(lines, n),
        0 <= matched_in(lines, m) <= m,
    decreases n, m,
{
    if m < n {
        lemma_line_counts(lines, m, n - 1);
    } else if m > 0 {
        lemma_line_counts(lines, m - 1, m - 1);
    }
}

fn count_all(pages: &Vec<PageDiag>) -> (r: (u64, u64, u64))
    requires
        counts_fit(pages@),
    ensures
        r.0 == line_count(pages@, pages@.len() as int),
        r.1 == word_count(pages@, pages@.len() as int),
        r.2 == matched_count(pages@, pages@.len() as int),
{
    let n: usize = pages.len();
    let mut lines: u64 = 0;
    let mut words: u64 = 0;
    let mut matched: u64 = 0;
    for i in 0..n
        invariant
            n == pages@.len(),
            counts_fit(pages@),
            lines == line_count(pages@, i as int),
            words == word_count(pages@, i as int),
            matched == matched_count(pages@, i as int),
    {
        proof {
            lemma_counts(pages@, i + 1, n as int);
            lemma_counts(pages@, i as int, n as int);
        }
        let p: &PageDiag = &pages[i];
        let m: usize = p.lines.len();
        let mut w: u64 = 0;
        let mut f: u64 = 0;
        for k in 0..m
            invariant
                m == p.lines@.len(),
                w == words_in(p.lines@, k as int),
                f == matched_in(p.lines@, k as int),
                f <= k,
                words_in(p.lines@, m as int) <= u64::MAX,
        {
            proof {
                lemma_line_counts(p.lines@, k + 1, m as int);
            }
            w = w + p.lines[k].words.len() as u64;
            if p.lines[k].final_font.is_some() {
                f = f + 1;
            }
        }
        proof {
            lemma_line_counts(p.lines@, m as int, m as int);
        }
        lines = lines + m as u64;
        words = words + w;
        matched = matched + f;
    }
    (lines, words, matched)
}

pub open spec fn stats_html(lines: nat, words: nat, matched: nat) -> Seq<char> {
    "<div class=\"stats\">\n<div class=\"stat\"><div class=\"num\">"@ + decimal(lines)
        + "</div><div class=\"lbl\">lines</div></div>\n<div class=\"stat\"><div class=\"num\">"@
        + decimal(words)
        + "</div><div class=\"lbl\">words scored</div></div>\n<div class=\"stat\"><div class=\"num\">"@
        + decimal(matched) + "</div><div class=\"lbl\">fonts matched</div></div>\n</div>"@
}

fn stats(lines: u64, words: u64, matched: u64) -> (r: String)
    ensures
        r@ == stats_html(lines as nat, words as nat, matched as nat),
{
    let mut s: String = copy_of("<div class=\"stats\">\n<div class=\"stat\"><div class=\"num\">");
    s.append(text_of(&to_decimal(lines)).as_str());
    s.append("</div><div class=\"lbl\">lines</div></div>\n<div class=\"stat\"><div class=\"num\">");
    s.append(text_of(&to_decimal(words)).as_str());
    s.append(
        "</div><div class=\"lbl\">words scored</div></div>\n<div class=\"stat\"><div class=\"num\">",
    );
    s.append(text_of(&to_decimal(matched)).as_str());
    s.append("</div><div class=\"lbl\">fonts matched</div></div>\n</div>");
    s
}

pub open spec fn line_head_html(l: LineDiag) -> Seq<char> {
    let font = match l.final_font {
        Some(f) => f@,
        None => "—"@,
    };
    let score = match l.final_score {
        Some(t) => t@,
        None => "—"@,
    };
    let rerank = match l.word_rerank_winner {
        Some(w) => "| Word rerank: <b>"@ + esc(w@) + "</b>"@,
        None => ""@,
    };
    "<div class=\"line-block "@ + (if l.final_font is Some {
        "correct"@
    } else {
        "unknown"@
    }) + "\" data-matched=\""@ + (if l.final_font is Some {
        "yes"@
    } else {
        "no"@
    }) + "\">\n<div class=\"line-text\">"@ + esc(l.text@)
        + "</div>\n<div class=\"line-meta\">\n  OCR conf: <b>"@ + l.confidence@
        + "</b> | Final font: <b>"@ + esc(font) + "</b> | Score: <b>"@ + score + "</b>\n  "@
        + rerank + "\n</div>\n"@
}

fn line_head(l: &LineDiag) -> (r: String)
    ensures
        r@ == line_head_html(*l),
{
    let mut s: String = copy_of("<div class=\"line-block ");
    match &l.final_font {
        Some(_) => {
            s.append("correct");
            s.append("\" data-matched=\"");
            s.append("yes");
        },
        None => {
            s.append("unknown");
            s.append("\" data-matched=\"");
            s.append("no");
        },
    }
    s.append("\">\n<div class=\"line-text\">");
    s.append(html_escape(l.text.as_str()).as_str());
    s.append("</div>\n<div class=\"line-meta\">\n  OCR conf: <b>");
    s.append(l.confidence.as_str());
    s.append("</b> | Final font: <b>");
    match &l.final_font {
        Some(f) => {
            s.append(html_escape(f.as_str()).as_str());
        },
        None => {
            s.append(html_escape("—").as_str());
        },
    }
    s.append("</b> | Score: <b>");
    match &l.final_score {
        Some(t) => {
            s.append(t.as_str());
        },
        None => {
            s.append("—");
        },
    }
    s.append("</b>\n  ");
    match &l.word_rerank_winner {
        Some(w) => {
            let mut t: String = copy_of("| Word rerank: <b>");
            t.append(html_escape(w.as_str()).as_str());
            t.append("</b>");
            s.append(t.as_str());
        },
        None => {
            s.append("");
        },
    }
    s.append("\n</div>\n");
    s
}

/// A proposed font is the one that was chosen: its key holds the first word of the chosen
/// font's name.
pub open spec fn is_chosen(font: Option<Seq<char>>, key: Seq<char>) -> bool {
    match font {
        None => false,
        Some(f) => contains(key, split(f, ' ')[0]),
    }
}

pub open spec fn font_of(l: LineDiag) -> Option<Seq<char>> {
    match l.final_font {
        Some(f) => Some(f@),
        None => None,
    }
}

fn chosen(font: &Option<String>, key: &str) -> (r: bool)
    ensures
        r == is_chosen(
            match *font {
                Some(f) => Some(f@),
                None => None,
            },
            key@,
        ),
{
    match font {
        None => false,
        Some(f) => {
            let v: Vec<char> = chars_of(f.as_str());
            let parts: Vec<Vec<char>> = split_chars(&v, ' ');
            proof {
                crate::text::lemma_split_nonempty(f@, ' ');
                assert(views(parts@)[0] == parts@[0]@);
            }
            has_part(&chars_of(key), &parts[0])
        },
    }
}

pub open spec fn ci_row_html(font: Option<Seq<char>>, c: CiCandidate, i: int) -> Seq<char> {
    "<tr"@ + (if is_chosen(font, c.font_key@) {
        " class=\"highlight\""@
    } else {
        ""@
    }) + "><td>"@ + decimal((i + 1) as nat) + "</td><td>"@ + esc(last_part(c.font_key@))
        + "</td><td>"@ + c.score@ + "</td><td>"@ + c.gap@ + "</td><td>top "@ + decimal(
        (i + 1) as nat,
    ) + "</td></tr>\n"@
}

pub open spec fn ci_rows_html(font: Option<Seq<char>>, v: Seq<CiCandidate>, n: int) -> Seq<char>
    decreases n,
{
    if n <= 0 {
        ""@
    } else {
        ci_rows_html(font, v, n - 1) + ci_row_html(font, v[n - 1], n - 1)
    }
}

fn ci_row(font: &Option<String>, c: &CiCandidate, i: u64) -> (r: String)
    requires
        i < u64::MAX,
    ensures
        r@ == ci_row_html(
            match *font {
                Some(f) => Some(f@),
                None => None,
            },
            *c,
            i as int,
        ),
{
    let mut s: String = copy_of("<tr");
    if chosen(font, c.font_key.as_str()) {
        s.append(" class=\"highlight\"");
    } else {
        s.append("");
    }
    s.append("><td>");
    s.append(text_of(&to_decimal(i + 1)).as_str());
    s.append("</td><td>");
    s.append(html_escape(text_of(&base_name(c.font_key.as_str())).as_str()).as_str());
    s.append("</td><td>");
    s.append(c.score.as_str());
    s.append("</td><td>");
    s.append(c.gap.as_str());
    s.append("</td><td>top ");
    s.append(text_of(&to_decimal(i + 1)).as_str());
    s.append("</td></tr>\n");
    s
}

pub open spec fn ci_html(l: LineDiag) -> Seq<char> {
    let n = l.ci_candidates@.len();
    if n == 0 {
        ""@
    } else {
        "<details><summary>CI candidates ("@ + decimal(n)
            + " fonts passed quorum)</summary>\n<table class=\"ci-table\"><tr><th>#</th><th>Font</th><th>CI Score</th><th>Gap from #1</th><th>Min top-N to include</th></tr>"@
            + ci_rows_html(font_of(l), l.ci_candidates@, n as int) + "</table></details>\n"@
    }
}

fn ci_table(l: &LineDiag) -> (r: String)
    ensures
        r@ == ci_html(*l),
{
    let n: usize = l.ci_candidates.len();
    if n == 0 {
        return copy_of("");
    }
    let mut rows: String = copy_of("");
    for i in 0..n
        invariant
            n == l.ci_candidates@.len(),
            rows@ == ci_rows_html(font_of(*l), l.ci_candidates@, i as int),
    {
        rows.append(ci_row(&l.final_font, &l.ci_candidates[i], i as u64).as_str());
    }
    let mut s: String = copy_of("<details><summary>CI candidates (");
    s.append(text_of(&to_decimal(n as u64)).as_str());
    s.append(
        " fonts passed quorum)</summary>\n<table class=\"ci-table\"><tr><th>#</th><th>Font</th><th>CI Score</th><th>Gap from #1</th><th>Min top-N to include</th></tr>",
    );
    s.append(rows.as_str());
    s.append("</table></details>\n");
    s
}

/// The bit pattern of `0.7`, above which a similarity is high.
pub const HIGH_SSIM: u32 = 0x3f33_3333;

/// The bit pattern of `0.4`, above which a similarity is fair.
pub const FAIR_SSIM: u32 = 0x3ecc_cccd;

pub open spec fn is_winner(w: WordDiag, key: Seq<char>) -> bool {
    w.winner is Some && w.winner->0@ == key
}

pub open spec fn cand_html(w: WordDiag, c: WordCandidateScore, rank: int) -> Seq<char> {
    "<div class=\"word-img-cell\">\n<img class=\""@ + (if is_winner(w, c.font_key@) {
        "winner"@
    } else if rank == 0 {
        "rank0"@
    } else {
        ""@
    }) + "\" src=\""@ + c.image@ + "\">\n<div class=\"label\">"@ + esc(last_part(c.font_key@))
        + "</div>\n<div class=\"ssim "@ + (if exceeds(c.ssim, HIGH_SSIM) {
        "high"@
    } else if exceeds(c.ssim, FAIR_SSIM) {
        "mid"@
    } else {
        "low"@
    }) + "\">SSIM: "@ + c.ssim_text@ + " (dy="@ + c.dy_text@ + ")"@ + (if rank == 0 {
        ""@
    } else {
        " Δ"@ + c.gap_text@
    }) + "</div>\n</div>"@
}

fn candidate(w: &WordDiag, c: &WordCandidateScore, rank: usize) -> (r: String)
    ensures
        r@ == cand_html(*w, *c, rank as int),
{
    let mut s: String = copy_of("<div class=\"word-img-cell\">\n<img class=\"");
    let won: bool = match &w.winner {
        Some(k) => same_text(k.as_str(), c.font_key.as_str()),
        None => false,
    };
    if won {
        s.append("winner");
    } else if rank == 0 {
        s.append("rank0");
    } else {
        s.append("");
    }
    s.append("\" src=\"");
    s.append(c.image.as_str());
    s.append("\">\n<div class=\"label\">");
    s.append(html_escape(text_of(&base_name(c.font_key.as_str())).as_str()).as_str());
    s.append("</div>\n<div class=\"ssim ");
    if is_larger(c.ssim, HIGH_SSIM) {
        s.append("high");
    } else if is_larger(c.ssim, FAIR_SSIM) {
        s.append("mid");
    } else {
        s.append("low");
    }
    s.append("\">SSIM: ");
    s.append(c.ssim_text.as_str());
    s.append(" (dy=");
    s.append(c.dy_text.as_str());
    s.append(")");
    if rank == 0 {
        s.append("");
    } else {
        s.append(joined(" Δ", c.gap_text.as_str()).as_str());
    }
    s.append("</div>\n</div>");
    s
}

pub open spec fn cands_html(w: WordDiag, n: int) -> Seq<char>
    decreases n,
{
    if n <= 0 {
        ""@
    } else {
        cands_html(w, n - 1) + cand_html(w, w.candidates@[n - 1], n - 1)
    }
}

pub open spec fn word_html(w: WordDiag) -> Seq<char> {
    "<div class=\"word-entry\">\n<h4>\""@ + esc(w.text@) + "\" ("@ + decimal(w.width as nat) + "×"@
        + decimal(w.height as nat)
        + ")</h4>\n<div class=\"word-images\">\n<div class=\"word-img-cell\">\n<img class=\"crop\" src=\""@
        + w.image@ + "\">\n<div class=\"label\">page crop</div>\n</div>"@ + cands_html(
        w,
        w.candidates@.len() as int,
    ) + "</div>\n"@ + (match w.winner {
        Some(k) => "<div class=\"vote-bar\"><span class=\"vote-chip top\">→ "@ + esc(last_part(k@))
            + "</span></div>"@,
        None => ""@,
    }) + "</div>\n"@
}

fn word_entry(w: &WordDiag) -> (r: String)
    ensures
        r@ == word_html(*w),
{
    let n: usize = w.candidates.len();
    let mut cands: String = copy_of("");
    for i in 0..n
        invariant
            n == w.candidates@.len(),
            cands@ == cands_html(*w, i as int),
    {
        cands.append(candidate(w, &w.candidates[i], i).as_str());
    }
    let mut s: String = copy_of("<div class=\"word-entry\">\n<h4>\"");
    s.append(html_escape(w.text.as_str()).as_str());
    s.append("\" (");
    s.append(text_of(&to_decimal(w.width)).as_str());
    s.append("×");
    s.append(text_of(&to_decimal(w.height)).as_str());
    s.append(
        ")</h4>\n<div class=\"word-images\">\n<div class=\"word-img-cell\">\n<img class=\"crop\" src=\"",
    );
    s.append(w.image.as_str());
    s.append("\">\n<div class=\"label\">page crop</div>\n</div>");
    s.append(cands.as_str());
    s.append("</div>\n");
    match &w.winner {
        Some(k) => {
            let mut t: String = copy_of("<div class=\"vote-bar\"><span class=\"vote-chip top\">→ ");
            t.append(html_escape(text_of(&base_name(k.as_str())).as_str()).as_str());
            t.append("</span></div>");
            s.append(t.as_str());
        },
        None => {
            s.append("");
        },
    }
    s.append("</div>\n");
    s
}

pub open spec fn words_html(v: Seq<WordDiag>, n: int) -> Seq<char>
    decreases n,
{
    if n <= 0 {
        ""@
    } else {
        words_html(v, n - 1) + word_html(v[n - 1])
    }
}

#[verifier::opaque]
pub open spec fn line_html(l: LineDiag) -> Seq<char> {
    line_head_html(l) + ci_html(l) + (if l.words@.len() == 0 {
        ""@
    } else {
        "<details open><summary>Word SSIM ("@ + decimal(l.words@.len())
            + " words)</summary>\n<div class=\"words-grid\">\n"@ + words_html(
            l.words@,
            l.words@.len() as int,
        ) + "</div></details>\n"@
    }) + "</div>\n"@
}

fn line_block(l: &LineDiag) -> (r: String)
    ensures
        r@ == line_html(*l),
{
    reveal(line_html);
    let mut s: String = line_head(l);
    s.append(ci_table(l).as_str());
    let n: usize = l.words.len();
    if n == 0 {
        s.append("");
    } else {
        let mut rows: String = copy_of("");
        for i in 0..n
            invariant
                n == l.words@.len(),
                rows@ == words_html(l.words@, i as int),
        {
            rows.append(word_entry(&l.words[i]).as_str());
        }
        let mut t: String = copy_of("<details open><summary>Word SSIM (");
        t.append(text_of(&to_decimal(n as u64)).as_str());
        t.append(" words)</summary>\n<div class=\"words-grid\">\n");
        t.append(rows.as_str());
        t.append("</div></details>\n");
        s.append(t.as_str());
    }
    s.append("</div>\n");
    s
}

pub open spec fn lines_html(v: Seq<LineDiag>, n: int) -> Seq<char>
    decreases n,
{
    if n <= 0 {
        ""@
    } else {
        lines_html(v, n - 1) + line_html(v[n - 1])
    }
}

pub open spec fn page_html(p: PageDiag) -> Seq<char> {
    "<h2>Page "@ + decimal(p.page_num as nat) + "</h2>\n"@ + lines_html(
        p.lines@,
        p.lines@.len() as int,
    )
}

fn page_block(p: &PageDiag) -> (r: String)
    ensures
        r@ == page_html(*p),
{
    let n: usize = p.lines.len();
    let mut rows: String = copy_of("");
    for i in 0..n
        invariant
            n == p.lines@.len(),
            rows@ == lines_html(p.lines@, i as int),
    {
        rows.append(line_block(&p.lines[i]).as_str());
    }
    let mut s: String = copy_of("<h2>Page ");
    s.append(text_of(&to_decimal(p.page_num)).as_str());
    s.append("</h2>\n");
    s.append(rows.as_str());
    s
}

pub open spec fn pages_html(v: Seq<PageDiag>, n: int) -> Seq<char>
    decreases n,
{
    if n <= 0 {
        ""@
    } else {
        pages_html(v, n - 1) + page_html(v[n - 1])
    }
}

/// The web page.
pub open spec fn report_html(t: SearchNote, pages: Seq<PageDiag>) -> Seq<char> {
    let n = pages.len() as int;
    PAGE_HEAD@ + note_html(t) + stats_html(
        line_count(pages, n) as nat,
        word_count(pages, n) as nat,
        matched_count(pages, n) as nat,
    ) + FILTER_BAR@ + pages_html(pages, n) + PAGE_TAIL@
}

/// Collects what is reported of a document.
pub struct DiagCollector {
    pub note: SearchNote,
    pub pages: Vec<PageDiag>,
}

impl DiagCollector {
    /// A report without pages.
    pub fn new(note: SearchNote) -> (d: DiagCollector)
        ensures
            d.note == note,
            d.pages@.len() == 0,
    {
        DiagCollector { note, pages: Vec::new() }
    }

    /// Begins a page.
    pub fn start_page(&mut self, page_num: u64)
        ensures
            final(self).note == old(self).note,
            final(self).pages@.len() == old(self).pages@.len() + 1,
            final(self).pages@.drop_last() == old(self).pages@,
            final(self).pages@.last().page_num == page_num,
            final(self).pages@.last().lines@.len() == 0,
    {
        self.pages.push(PageDiag { page_num, lines: Vec::new() });
        assert(self.pages@.drop_last() =~= old(self).pages@);
    }

    /// The page that was begun last.
    pub fn current_page_mut(&mut self) -> (p: &mut PageDiag)
        requires
            old(self).pages@.len() > 0,
        ensures
            *p == old(self).pages@.last(),
            final(self).note == old(self).note,
            final(self).pages@ == old(self).pages@.update(
                old(self).pages@.len() - 1,
                *final(p),
            ),
    {
        let n: usize = self.pages.len();
        &mut self.pages[n - 1]
    }

    /// Writes the web page.
    pub fn write_html(&self) -> (r: String)
        requires
            counts_fit(self.pages@),
        ensures
            r@ == report_html(self.note, self.pages@),
    {
        let pages: &Vec<PageDiag> = &self.pages;
        let n: usize = pages.len();
        let (lines, words, matched): (u64, u64, u64) = count_all(pages);
        let mut rows: String = copy_of("");
        for i in 0..n
            invariant
                n == pages@.len(),
                rows@ == pages_html(pages@, i as int),
        {
            rows.append(page_block(&pages[i]).as_str());
        }
        let mut s: String = copy_of(PAGE_HEAD);
        s.append(note(&self.note).as_str());
        s.append(stats(lines, words, matched).as_str());
        s.append(FILTER_BAR);
        s.append(rows.as_str());
        s.append(PAGE_TAIL);
        s
    }
}

// --- Laws of the parts ---

/// A text is escaped character by character: one that is put at the end adds its own form, which
/// is itself but for the four characters that have a name in a web page.
pub proof fn law_escaped_one(s: Seq<char>, c: char)
    ensures
        esc(s.push(c)) == esc(s) + esc(seq![c]),
        c == '&' ==> esc(seq![c]) == seq!['&', 'a', 'm', 'p', ';'],
        c == '<' ==> esc(seq![c]) == seq!['&', 'l', 't', ';'],
        c == '>' ==> esc(seq![c]) == seq!['&', 'g', 't', ';'],
        c == '"' ==> esc(seq![c]) == seq!['&', 'q', 'u', 'o', 't', ';'],
        c != '&' && c != '<' && c != '>' && c != '"' ==> esc(seq![c]) == seq![c],
{
    lemma_entities();
    lemma_escaped_prefix(s, s.push(c), s.len() as int);
    let one = seq![c];
    assert(escaped(one, 0) =~= Seq::<char>::empty());
    assert(escaped(one, 1) =~= escaped_char(c));
    assert(escaped(s.push(c), s.len() as int + 1) == escaped(s.push(c), s.len() as int) + escaped_char(c));
}

proof fn lemma_escaped_prefix(a: Seq<char>, b: Seq<char>, n: int)
    requires
        n <= a.len(),
        n <= b.len(),
        forall|i: int| 0 <= i < n ==> #[trigger] a[i] == b[i],
    ensures
        escaped(a, n) == escaped(b, n),
    decreases n,
{
    if n > 0 {
        lemma_escaped_prefix(a, b, n - 1);
        assert(a[n - 1] == b[n - 1]);
    }
}

/// The characters of base64 are the capital letters, the small letters, the digits, plus and
/// slash, in this order. A text of base64 ends in as many `=` as bytes are missing to a multiple
/// of three, and has no other.
pub proof fn law_base64_alphabet(v: int, d: Seq<u8>, k: int)
    requires
        0 <= v < 64,
        0 <= k < base64(d).len(),
    ensures
        v < 26 ==> b64_char(v) as u32 == 'A' as u32 + v,
        26 <= v < 52 ==> b64_char(v) as u32 == 'a' as u32 + (v - 26),
        52 <= v < 62 ==> b64_char(v) as u32 == '0' as u32 + (v - 52),
        v == 62 ==> b64_char(v) == '+',
        v == 63 ==> b64_char(v) == '/',
        base64(d)[k] == '=' <==> (d.len() % 3 == 1 && k >= base64(d).len() - 2) || (d.len() % 3 == 2
            && k >= base64(d).len() - 1),
{
    let i = 3 * (k / 4);
    let b0 = byte_at(d, i);
    let b1 = byte_at(d, i + 1);
    let b2 = byte_at(d, i + 2);
    assert(0 <= b0 < 256 && 0 <= b1 < 256 && 0 <= b2 < 256);
    lemma_never_filler(b0 / 4);
    lemma_never_filler((b0 % 4) * 16 + b1 / 16);
    lemma_never_filler((b1 % 16) * 4 + b2 / 64);
    lemma_never_filler(b2 % 64);
}

proof fn lemma_never_filler(v: int)
    requires
        0 <= v < 64,
    ensures
        b64_char(v) != '=',
{
}

/// A part of a file name is as long as the text, but fifteen characters at most for a word.
/// Letters and digits stay, and in the name of a font dashes, underscores and dots; all else
/// becomes an underscore.
pub proof fn law_file_parts(s: Seq<char>, i: int)
    requires
        0 <= i < s.len(),
    ensures
        word_part(s).len() == (if s.len() < 15 {
            s.len() as int
        } else {
            15
        }),
        font_part(s).len() == s.len(),
        i < 15 && alphanumeric(s[i]) ==> word_part(s)[i] == s[i],
        i < 15 && !alphanumeric(s[i]) ==> word_part(s)[i] == '_',
        alphanumeric(s[i]) || s[i] == '-' || s[i] == '_' || s[i] == '.' ==> font_part(s)[i] == s[i],
        !(alphanumeric(s[i]) || s[i] == '-' || s[i] == '_' || s[i] == '.') ==> font_part(s)[i]
            == '_',
{
}

/// The last part of a path is what follows its last slash, or all of it without one.
pub proof fn law_last_part(dir: Seq<char>, name: Seq<char>)
    requires
        !name.contains('/'),
    ensures
        last_part(name) == name,
        last_part(dir.push('/') + name) == name,
{
    law_split_joined(dir, name, '/');
    let parts = seq![name];
    assert forall|i: int| 0 <= i < parts.len() implies !(#[trigger] parts[i]).contains('/') by {
        assert(parts[i] == name);
    }
    law_join_split(parts, '/');
    assert(join(parts, '/') == name);
    assert(split(name, '/') == parts);
    assert((split(dir, '/') + parts).last() == name);
}

/// A proposed font counts as the chosen one exactly if its key holds the chosen name up to its
/// first space. Without a chosen font none does.
pub proof fn law_chosen(word: Seq<char>, rest: Seq<char>, key: Seq<char>)
    requires
        !word.contains(' '),
    ensures
        !is_chosen(None, key),
        is_chosen(Some(word), key) <==> contains(key, word),
        is_chosen(Some(word.push(' ') + rest), key) <==> contains(key, word),
{
    law_split_joined(word, rest, ' ');
    let parts = seq![word];
    assert forall|i: int| 0 <= i < parts.len() implies !(#[trigger] parts[i]).contains(' ') by {
        assert(parts[i] == word);
    }
    law_join_split(parts, ' ');
    assert(join(parts, ' ') == word);
    assert(split(word, ' ') == parts);
    assert((parts + split(rest, ' '))[0] == word);
}

proof fn lemma_pages_alike(a: Seq<PageDiag>, b: Seq<PageDiag>, n: int)
    requires
        n <= a.len(),
        n <= b.len(),
        forall|i: int| 0 <= i < n ==> #[trigger] a[i] == b[i],
    ensures
        line_count(a, n) == line_count(b, n),
        word_count(a, n) == word_count(b, n),
        matched_count(a, n) == matched_count(b, n),
    decreases n,
{
    if n > 0 {
        lemma_pages_alike(a, b, n - 1);
        assert(a[n - 1] == b[n - 1]);
    }
}

proof fn lemma_lines_alike(a: Seq<LineDiag>, b: Seq<LineDiag>, n: int)
    requires
        n <= a.len(),
        n <= b.len(),
        forall|i: int| 0 <= i < n ==> #[trigger] a[i] == b[i],
    ensures
        words_in(a, n) == words_in(b, n),
        matched_in(a, n) == matched_in(b, n),
    decreases n,
{
    if n > 0 {
        lemma_lines_alike(a, b, n - 1);
        assert(a[n - 1] == b[n - 1]);
    }
}

/// A report counts nothing without pages, and a page without lines adds nothing. A line that is
/// put at the end of the last page adds one line and its words, and one match if it has a font.
pub proof fn law_counts(pages: Seq<PageDiag>, page: PageDiag, more: PageDiag, line: LineDiag)
    requires
        more.lines@ == page.lines@.push(line),
    ensures
        ({
            let n = pages.len() as int;
            let a = pages.push(page);
            let b = pages.push(more);
            let none = Seq::<PageDiag>::empty();
            &&& line_count(none, 0) == 0 && word_count(none, 0) == 0 && matched_count(none, 0) == 0
            &&& page.lines@.len() == 0 ==> line_count(a, n + 1) == line_count(pages, n)
                && word_count(a, n + 1) == word_count(pages, n) && matched_count(a, n + 1)
                == matched_count(pages, n)
            &&& line_count(b, n + 1) == line_count(a, n + 1) + 1
            &&& word_count(b, n + 1) == word_count(a, n + 1) + line.words@.len()
            &&& line.final_font is Some ==> matched_count(b, n + 1) == matched_count(a, n + 1) + 1
            &&& line.final_font is None ==> matched_count(b, n + 1) == matched_count(a, n + 1)
        }),
{
    let n = pages.len() as int;
    let a = pages.push(page);
    let b = pages.push(more);
    lemma_pages_alike(pages, a, n);
    lemma_pages_alike(pages, b, n);
    assert(a[n] == page && b[n] == more);
    let m = page.lines@.len() as int;
    lemma_lines_alike(page.lines@, more.lines@, m);
    assert(more.lines@[m] == line);
    assert(words_in(more.lines@, m + 1) == words_in(more.lines@, m) + line.words@.len());
    assert(line_count(a, n + 1) == line_count(a, n) + m);
    assert(line_count(b, n + 1) == line_count(b, n) + m + 1);
}


proof fn lemma_rows_alike(
    font: Option<Seq<char>>,
    a: Seq<CiCandidate>,
    b: Seq<CiCandidate>,
    n: int,
)
    requires
        n <= a.len(),
        n <= b.len(),
        forall|i: int| 0 <= i < n ==> #[trigger] a[i] == b[i],
    ensures
        ci_rows_html(font, a, n) == ci_rows_html(font, b, n),
    decreases n,
{
    if n > 0 {
        lemma_rows_alike(font, a, b, n - 1);
        assert(a[n - 1] == b[n - 1]);
    }
}

proof fn lemma_words_alike(a: Seq<WordDiag>, b: Seq<WordDiag>, n: int)
    requires
        n <= a.len(),
        n <= b.len(),
        forall|i: int| 0 <= i < n ==> #[trigger] a[i] == b[i],
    ensures
        words_html(a, n) == words_html(b, n),
    decreases n,
{
    if n > 0 {
        lemma_words_alike(a, b, n - 1);
        assert(a[n - 1] == b[n - 1]);
    }
}

proof fn lemma_blocks_alike(a: Seq<LineDiag>, b: Seq<LineDiag>, n: int)
    requires
        n <= a.len(),
        n <= b.len(),
        forall|i: int| 0 <= i < n ==> #[trigger] a[i] == b[i],
    ensures
        lines_html(a, n) == lines_html(b, n),
    decreases n,
{
    if n > 0 {
        lemma_blocks_alike(a, b, n - 1);
        assert(a[n - 1] == b[n - 1]);
    }
}

proof fn lemma_sheets_alike(a: Seq<PageDiag>, b: Seq<PageDiag>, n: int)
    requires
        n <= a.len(),
        n <= b.len(),
        forall|i: int| 0 <= i < n ==> #[trigger] a[i] == b[i],
    ensures
        pages_html(a, n) == pages_html(b, n),
    decreases n,
{
    if n > 0 {
        lemma_sheets_alike(a, b, n - 1);
        assert(a[n - 1] == b[n - 1]);
    }
}

/// A report shows its pages, the lines of a page, the words of a line and the fonts that are
/// proposed in their order, each once: one more at the end adds what is shown of it, and without
/// any nothing is shown.
pub proof fn law_shown_in_order(
    font: Option<Seq<char>>,
    rows: Seq<CiCandidate>,
    row: CiCandidate,
    words: Seq<WordDiag>,
    word: WordDiag,
    lines: Seq<LineDiag>,
    line: LineDiag,
    pages: Seq<PageDiag>,
    page: PageDiag,
)
    ensures
        ({
            let r = rows.len() as int;
            let w = words.len() as int;
            let l = lines.len() as int;
            let p = pages.len() as int;
            &&& ci_rows_html(font, rows.push(row), r + 1) == ci_rows_html(font, rows, r)
                + ci_row_html(font, row, r)
            &&& words_html(words.push(word), w + 1) == words_html(words, w) + word_html(word)
            &&& lines_html(lines.push(line), l + 1) == lines_html(lines, l) + line_html(line)
            &&& pages_html(pages.push(page), p + 1) == pages_html(pages, p) + page_html(page)
            &&& ci_rows_html(font, rows, 0).len() == 0
            &&& words_html(words, 0).len() == 0
            &&& lines_html(lines, 0).len() == 0
            &&& pages_html(pages, 0).len() == 0
        }),
{
    reveal_strlit("");
    lemma_rows_alike(font, rows, rows.push(row), rows.len() as int);
    lemma_words_alike(words, words.push(word), words.len() as int);
    lemma_blocks_alike(lines, lines.push(line), lines.len() as int);
    lemma_sheets_alike(pages, pages.push(page), pages.len() as int);
    assert(rows.push(row)[rows.len() as int] == row);
    assert(words.push(word)[words.len() as int] == word);
    assert(lines.push(line)[lines.len() as int] == line);
    assert(pages.push(page)[pages.len() as int] == page);
}


} // verus!
