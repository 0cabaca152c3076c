//! The binary file format of the character index.
//!
//! A header of magic bytes, version and feature length is followed by the characters, each
//! with its fonts and the spread of each dimension, and by the names of the fonts that
//! have no entries. Numbers are little-endian, texts carry their length in bytes.

use vstd::prelude::*;
use vstd::string::*;
use vstd::utf8::encode_utf8;
use crate::bytes::{
    char_from_code, enc32, enc32s, enc_text, get32, get32s, is_char_code, lemma_enc32s_len,
    lemma_get32, lemma_get32s, lemma_regroup, lemma_stands_split, lemma_text_round_trip, put32,
    put32s, put_bytes, put_text, read32, read32s, read_text, stands_at, text_from,
};
use crate::cache::NameSet;
use crate::char_index::{
    char_row, char_rows, distinct_chars, font_row, font_rows, lemma_slot, put, put_fonts, rows_wf,
    sigma_slot, slot, CharFeatures, CharFonts, CharIndex, CharRow, FontCharEntry, FontRow, FEAT_LEN,
    INDEX_VERSION,
};
use crate::text::{copy_of, decimal, text_of, texts, to_decimal};

verus! {

/// The magic bytes `UCIX`.
pub open spec fn magic() -> Seq<u8> {
    seq![0x55u8, 0x43u8, 0x49u8, 0x58u8]
}

/// Bytes that the numbers of one feature vector take up.
pub const FEAT_BYTES: usize = 228;

/// Why bytes are not an index.
#[derive(Clone, Copy, Debug, PartialEq, Eq, Structural)]
pub enum IndexError {
    /// There are less bytes than a header has.
    TooSmall,
    /// The magic bytes are missing.
    NoMagic,
    /// The version is another one.
    Version(u32),
    /// The feature vectors have another length.
    FeatLen(u32),
    /// The bytes end too early.
    Truncated,
    /// A code point is not a character.
    InvalidChar,
    /// The bytes end inside a font name.
    TruncatedName,
    /// The bytes end inside the name of a font without entries.
    TruncatedSkippedName,
}

impl IndexError {
    /// The message of an error.
    pub open spec fn text(self) -> Seq<char> {
        match self {
            IndexError::TooSmall => "index file too small"@,
            IndexError::NoMagic => "stale index: missing magic header (pre-v2 format)"@,
            IndexError::Version(v) => "stale index: version "@ + decimal(v as nat) + ", expected "@
                + decimal(INDEX_VERSION as nat),
            IndexError::FeatLen(n) => "stale index: feat_len "@ + decimal(n as nat) + ", expected "@
                + decimal(FEAT_LEN as nat),
            IndexError::Truncated => "truncated"@,
            IndexError::InvalidChar => "invalid char"@,
            IndexError::TruncatedName => "truncated name"@,
            IndexError::TruncatedSkippedName => "truncated skipped font name"@,
        }
    }

    /// The message of an error.
    pub fn message(&self) -> (r: String)
        ensures
            r@ == self.text(),
    {
        match self {
            IndexError::TooSmall => copy_of("index file too small"),
            IndexError::NoMagic => copy_of("stale index: missing magic header (pre-v2 format)"),
            IndexError::Version(v) => {
                let mut s: String = copy_of("stale index: version ");
                s.append(text_of(&to_decimal(*v as u64)).as_str());
                s.append(", expected ");
                s.append(text_of(&to_decimal(INDEX_VERSION as u64)).as_str());
                s
            },
            IndexError::FeatLen(n) => {
                let mut s: String = copy_of("stale index: feat_len ");
                s.append(text_of(&to_decimal(*n as u64)).as_str());
                s.append(", expected ");
                s.append(text_of(&to_decimal(FEAT_LEN as u64)).as_str());
                s
            },
            IndexError::Truncated => copy_of("truncated"),
            IndexError::InvalidChar => copy_of("invalid char"),
            IndexError::TruncatedName => copy_of("truncated name"),
            IndexError::TruncatedSkippedName => copy_of("truncated skipped font name"),
        }
    }
}

// --- Writing ---

/// The bytes of one font.
pub open spec fn enc_font(f: FontRow) -> Seq<u8> {
    enc_text(f.0) + enc32s(f.1)
}

pub open spec fn enc_fonts(v: Seq<FontRow>) -> Seq<u8>
    decreases v.len(),
{
    if v.len() == 0 {
        Seq::empty()
    } else {
        enc_fonts(v.drop_last()) + enc_font(v.last())
    }
}

/// The spread of each dimension for a character; zeros where it is not known.
pub open spec fn sigmas_of(s: Seq<(char, Vec<u32>)>, c: char) -> Seq<u32> {
    match sigma_slot(s, c) {
        Some(k) => s[k].1@,
        None => Seq::new(FEAT_LEN as nat, |i: int| 0u32),
    }
}

/// The bytes of one character.
pub open spec fn enc_char(row: CharRow, sigmas: Seq<u32>) -> Seq<u8> {
    enc32(row.0 as u32) + (enc32(row.1.len() as u32) + (enc_fonts(row.1) + enc32s(sigmas)))
}

pub open spec fn enc_chars(t: Seq<CharRow>, s: Seq<(char, Vec<u32>)>) -> Seq<u8>
    decreases t.len(),
{
    if t.len() == 0 {
        Seq::empty()
    } else {
        enc_chars(t.drop_last(), s) + enc_char(t.last(), sigmas_of(s, t.last().0))
    }
}

pub open spec fn enc_names(v: Seq<Seq<char>>) -> Seq<u8>
    decreases v.len(),
{
    if v.len() == 0 {
        Seq::empty()
    } else {
        enc_names(v.drop_last()) + enc_text(v.last())
    }
}

/// The bytes of an index with these entries, spreads and fonts without entries.
pub open spec fn enc_index(
    t: Seq<CharRow>,
    s: Seq<(char, Vec<u32>)>,
    skipped: Seq<Seq<char>>,
) -> Seq<u8> {
    magic() + (enc32(INDEX_VERSION) + (enc32(FEAT_LEN as u32) + (enc32(t.len() as u32) + (enc_chars(
        t,
        s,
    ) + (enc32(skipped.len() as u32) + enc_names(skipped))))))
}

/// A text whose length in bytes the format can hold.
pub open spec fn short(s: Seq<char>) -> bool {
    encode_utf8(s).len() <= u32::MAX
}

/// All counts and lengths of a table fit the format.
pub open spec fn fits_format(t: Seq<CharRow>) -> bool {
    &&& t.len() <= u32::MAX
    &&& forall|i: int| 0 <= i < t.len() ==> row_fits((#[trigger] t[i]).1)
}

pub open spec fn row_fits(v: Seq<FontRow>) -> bool {
    v.len() <= u32::MAX && forall|k: int|
        0 <= k < v.len() ==> short((#[trigger] v[k]).0) && v[k].1.len() == FEAT_LEN
}

fn put_fonts_bytes(out: &mut Vec<u8>, fonts: &Vec<FontCharEntry>)
    requires
        rows_wf(fonts@),
        row_fits(font_rows(fonts@)),
    ensures
        final(out)@ == old(out)@ + enc_fonts(font_rows(fonts@)),
{
    let n: usize = fonts.len();
    let ghost before = out@;
    let ghost rows = font_rows(fonts@);
    assert(before + enc_fonts(rows.take(0)) =~= before);
    for i in 0..n
        invariant
            n == fonts@.len(),
            rows == font_rows(fonts@),
            rows_wf(fonts@),
            row_fits(rows),
            out@ == before + enc_fonts(rows.take(i as int)),
    {
        assert(rows.take(i + 1).drop_last() =~= rows.take(i as int));
        assert(rows.take(i + 1).last() == rows[i as int]);
        assert(short(rows[i as int].0));
        assert(fonts@[i as int].features.wf());
        put_text(out, fonts[i].font_name.as_str());
        put32s(out, &fonts[i].features.as_slice());
        assert(out@ =~= before + enc_fonts(rows.take(i + 1)));
    }
    assert(rows.take(n as int) =~= rows);
}

fn put_char(out: &mut Vec<u8>, entry: &CharFonts, sigmas: Option<&Vec<u32>>)
    requires
        rows_wf(entry.fonts@),
        row_fits(char_row(*entry).1),
    ensures
        final(out)@ == old(out)@ + enc_char(
            char_row(*entry),
            match sigmas {
                Some(s) => s@,
                None => Seq::new(FEAT_LEN as nat, |i: int| 0u32),
            },
        ),
{
    let ghost row = char_row(*entry);
    let ghost b0 = out@;
    put32(out, entry.ch as u32);
    let ghost b1 = out@;
    put32(out, entry.fonts.len() as u32);
    let ghost b2 = out@;
    put_fonts_bytes(out, &entry.fonts);
    let ghost s: Seq<u32> = match sigmas {
        Some(s) => s@,
        None => Seq::new(FEAT_LEN as nat, |i: int| 0u32),
    };
    match sigmas {
        Some(s) => {
            put32s(out, s);
        },
        None => {
            let zeros: Vec<u32> = vec![0u32; FEAT_LEN];
            assert(zeros@ =~= Seq::new(FEAT_LEN as nat, |i: int| 0u32));
            put32s(out, &zeros);
        },
    }
    proof {
        let tail = enc_fonts(row.1) + enc32s(s);
        lemma_regroup(b2, enc_fonts(row.1), enc32s(s));
        lemma_regroup(b1, enc32(row.1.len() as u32), tail);
        lemma_regroup(b0, enc32(row.0 as u32), enc32(row.1.len() as u32) + tail);
    }
}

proof fn lemma_assembled(
    a: Seq<u8>,
    b: Seq<u8>,
    c: Seq<u8>,
    d: Seq<u8>,
    e: Seq<u8>,
    f: Seq<u8>,
    g: Seq<u8>,
)
    ensures
        (((a + (b + (c + d))) + e) + f) + g == a + (b + (c + (d + (e + (f + g))))),
{
    let fg = f + g;
    let efg = e + fg;
    lemma_regroup((a + (b + (c + d))) + e, f, g);
    lemma_regroup(a + (b + (c + d)), e, fg);
    lemma_regroup(a, b + (c + d), efg);
    lemma_regroup(b, c + d, efg);
    lemma_regroup(c, d, efg);
}

/// The bytes of an index file.
#[verifier::rlimit(40)]
pub fn save_index(index: &CharIndex) -> (out: Vec<u8>)
    requires
        index.wf(),
        fits_format(index.table()),
        index.skipped_fonts.names@.len() <= u32::MAX,
        forall|i: int|
            0 <= i < index.skipped_fonts.names@.len() ==> short(
                (#[trigger] index.skipped_fonts.names@[i])@,
            ),
    ensures
        out@ == enc_index(index.table(), index.dim_sigmas@, texts(index.skipped_fonts.names@)),
{
    let ghost t = index.table();
    let ghost sg = index.dim_sigmas@;
    let ghost skipped = texts(index.skipped_fonts.names@);
    let mut head: Vec<u8> = Vec::new();
    put_bytes(&mut head, &[0x55u8, 0x43u8, 0x49u8, 0x58u8]);
    put32(&mut head, INDEX_VERSION);
    put32(&mut head, FEAT_LEN as u32);
    put32(&mut head, index.entries.len() as u32);
    assert(head@ =~= magic() + (enc32(INDEX_VERSION) + (enc32(FEAT_LEN as u32) + enc32(
        t.len() as u32,
    ))));
    let ghost start = head@;
    let mut out: Vec<u8> = head;
    let n: usize = index.entries.len();
    assert(start + enc_chars(t.take(0), sg) =~= start);
    for i in 0..n
        invariant
            n == index.entries@.len(),
            index.wf(),
            t == index.table(),
            sg == index.dim_sigmas@,
            fits_format(t),
            out@ == start + enc_chars(t.take(i as int), sg),
    {
        assert(t.take(i + 1).drop_last() =~= t.take(i as int));
        assert(t.take(i + 1).last() == t[i as int]);
        let ghost row = t[i as int];
        assert(row == char_row(index.entries@[i as int]));
        assert(row_fits(row.1));
        let ghost at = out@;
        put_char(&mut out, &index.entries[i], index.get_dim_sigmas(index.entries[i].ch));
        proof {
            lemma_regroup(
                start,
                enc_chars(t.take(i as int), sg),
                enc_char(row, sigmas_of(sg, row.0)),
            );
        }
        assert(out@ == start + enc_chars(t.take(i + 1), sg));
    }
    assert(t.take(n as int) =~= t);
    let ghost mid = out@;
    let m: usize = index.skipped_fonts.names.len();
    put32(&mut out, m as u32);
    let ghost base = out@;
    assert(base + enc_names(skipped.take(0)) =~= base);
    for i in 0..m
        invariant
            m == index.skipped_fonts.names@.len(),
            skipped == texts(index.skipped_fonts.names@),
            forall|i: int|
                0 <= i < index.skipped_fonts.names@.len() ==> short(
                    (#[trigger] index.skipped_fonts.names@[i])@,
                ),
            out@ == base + enc_names(skipped.take(i as int)),
    {
        assert(skipped.take(i + 1).drop_last() =~= skipped.take(i as int));
        assert(skipped.take(i + 1).last() == skipped[i as int]);
        put_text(&mut out, index.skipped_fonts.names[i].as_str());
        proof {
            lemma_regroup(base, enc_names(skipped.take(i as int)), enc_text(skipped[i as int]));
        }
        assert(out@ == base + enc_names(skipped.take(i + 1)));
    }
    assert(skipped.take(m as int) =~= skipped);
    proof {
        lemma_assembled(
            magic(),
            enc32(INDEX_VERSION),
            enc32(FEAT_LEN as u32),
            enc32(t.len() as u32),
            enc_chars(t, sg),
            enc32(skipped.len() as u32),
            enc_names(skipped),
        );
    }
    out
}

// --- Reading ---

/// The font that stands at `p`, and the position after it.
pub open spec fn parse_font(data: Seq<u8>, p: int) -> Result<(FontRow, int), IndexError> {
    if p + 4 > data.len() {
        Err(IndexError::Truncated)
    } else {
        let n = get32(data, p) as int;
        if p + 4 + n > data.len() {
            Err(IndexError::TruncatedName)
        } else if p + 4 + n + FEAT_BYTES > data.len() {
            Err(IndexError::Truncated)
        } else {
            Ok(
                (
                    (
                        text_from(data.subrange(p + 4, p + 4 + n)),
                        get32s(data, p + 4 + n, FEAT_LEN as int),
                    ),
                    p + 4 + n + FEAT_BYTES,
                ),
            )
        }
    }
}

/// `n` fonts from `p` on, and the position after them.
pub open spec fn parse_fonts(data: Seq<u8>, p: int, n: int) -> Result<(Seq<FontRow>, int), IndexError>
    decreases n,
{
    if n <= 0 {
        Ok((Seq::empty(), p))
    } else {
        match parse_fonts(data, p, n - 1) {
            Err(e) => Err(e),
            Ok((rows, q)) => match parse_font(data, q) {
                Err(e) => Err(e),
                Ok((row, r)) => Ok((rows.push(row), r)),
            },
        }
    }
}

/// The character that stands at `p`, and the position after it.
pub open spec fn parse_char(data: Seq<u8>, p: int) -> Result<(CharRow, int), IndexError> {
    if p + 4 > data.len() {
        Err(IndexError::Truncated)
    } else if !is_char_code(get32(data, p)) {
        Err(IndexError::InvalidChar)
    } else if p + 8 > data.len() {
        Err(IndexError::Truncated)
    } else {
        match parse_fonts(data, p + 8, get32(data, p + 4) as int) {
            Err(e) => Err(e),
            Ok((rows, q)) => if q + FEAT_BYTES > data.len() {
                Err(IndexError::Truncated)
            } else {
                Ok(((get32(data, p) as char, rows), q + FEAT_BYTES))
            },
        }
    }
}

/// `n` characters from `p` on as a table, and the position after them. A character that
/// stands there twice has the fonts of its last occurrence.
pub open spec fn parse_chars(data: Seq<u8>, p: int, n: int) -> Result<(Seq<CharRow>, int), IndexError>
    decreases n,
{
    if n <= 0 {
        Ok((Seq::empty(), p))
    } else {
        match parse_chars(data, p, n - 1) {
            Err(e) => Err(e),
            Ok((t, q)) => match parse_char(data, q) {
                Err(e) => Err(e),
                Ok((row, r)) => Ok((put(t, row.0, row.1), r)),
            },
        }
    }
}

/// `n` names from `p` on.
pub open spec fn parse_names(data: Seq<u8>, p: int, n: int) -> Result<(Set<Seq<char>>, int), IndexError>
    decreases n,
{
    if n <= 0 {
        Ok((Set::empty(), p))
    } else {
        match parse_names(data, p, n - 1) {
            Err(e) => Err(e),
            Ok((names, q)) => if q + 4 > data.len() {
                Err(IndexError::Truncated)
            } else {
                let len = get32(data, q) as int;
                if q + 4 + len > data.len() {
                    Err(IndexError::TruncatedSkippedName)
                } else {
                    Ok((names.insert(text_from(data.subrange(q + 4, q + 4 + len))), q + 4 + len))
                }
            },
        }
    }
}

/// What an index file holds: entries, and the names of fonts without entries. Less than
/// four bytes after the characters mean that there are no such names.
pub open spec fn parse_index(data: Seq<u8>) -> Result<(Seq<CharRow>, Set<Seq<char>>), IndexError> {
    if data.len() < 12 {
        Err(IndexError::TooSmall)
    } else if data.subrange(0, 4) != magic() {
        Err(IndexError::NoMagic)
    } else if get32(data, 4) != INDEX_VERSION {
        Err(IndexError::Version(get32(data, 4)))
    } else if get32(data, 8) != FEAT_LEN as u32 {
        Err(IndexError::FeatLen(get32(data, 8)))
    } else if data.len() < 16 {
        Err(IndexError::Truncated)
    } else {
        match parse_chars(data, 16, get32(data, 12) as int) {
            Err(e) => Err(e),
            Ok((t, q)) => if q + 4 > data.len() {
                Ok((t, Set::empty()))
            } else {
                match parse_names(data, q + 4, get32(data, q) as int) {
                    Err(e) => Err(e),
                    Ok((names, _)) => Ok((t, names)),
                }
            },
        }
    }
}

proof fn lemma_fonts_stop(data: Seq<u8>, p: int, k: int, n: int)
    requires
        0 <= k <= n,
        parse_fonts(data, p, k) is Err,
    ensures
        parse_fonts(data, p, n) == parse_fonts(data, p, k),
    decreases n - k,
{
    if k < n {
        lemma_fonts_stop(data, p, k, n - 1);
    }
}

proof fn lemma_chars_stop(data: Seq<u8>, p: int, k: int, n: int)
    requires
        0 <= k <= n,
        parse_chars(data, p, k) is Err,
    ensures
        parse_chars(data, p, n) == parse_chars(data, p, k),
    decreases n - k,
{
    if k < n {
        lemma_chars_stop(data, p, k, n - 1);
    }
}

proof fn lemma_names_stop(data: Seq<u8>, p: int, k: int, n: int)
    requires
        0 <= k <= n,
        parse_names(data, p, k) is Err,
    ensures
        parse_names(data, p, n) == parse_names(data, p, k),
    decreases n - k,
{
    if k < n {
        lemma_names_stop(data, p, k, n - 1);
    }
}

fn read_font(data: &[u8], p: usize) -> (r: Result<(FontCharEntry, usize), IndexError>)
    requires
        p <= data@.len(),
    ensures
        match parse_font(data@, p as int) {
            Ok((row, q)) => r is Ok && font_row(r->Ok_0.0) == row && r->Ok_0.1 == q
                && r->Ok_0.0.features.wf() && q <= data@.len(),
            Err(e) => r == Err::<(FontCharEntry, usize), IndexError>(e),
        },
{
    let len: usize = data.len();
    if len - p < 4 {
        return Err(IndexError::Truncated);
    }
    let n: usize = read32(data, p) as usize;
    if len - p - 4 < n {
        return Err(IndexError::TruncatedName);
    }
    let q: usize = p + 4 + n;
    if len - q < FEAT_BYTES {
        return Err(IndexError::Truncated);
    }
    let font_name: String = read_text(data, p + 4, n);
    let nums: Vec<u32> = read32s(data, q, FEAT_LEN);
    let features: CharFeatures = CharFeatures::from_slice(&nums);
    Ok((FontCharEntry { font_name, features }, q + FEAT_BYTES))
}

fn read_fonts(data: &[u8], p: usize, n: u32) -> (r: Result<(Vec<FontCharEntry>, usize), IndexError>)
    requires
        p <= data@.len(),
    ensures
        match parse_fonts(data@, p as int, n as int) {
            Ok((rows, q)) => r is Ok && font_rows(r->Ok_0.0@) == rows && r->Ok_0.1 == q && rows_wf(
                r->Ok_0.0@,
            ) && q <= data@.len(),
            Err(e) => r == Err::<(Vec<FontCharEntry>, usize), IndexError>(e),
        },
{
    let mut out: Vec<FontCharEntry> = Vec::new();
    let mut q: usize = p;
    let mut i: u32 = 0;
    assert(font_rows(out@) =~= Seq::<FontRow>::empty());
    while i < n
        invariant
            i <= n,
            p <= data@.len(),
            q <= data@.len(),
            rows_wf(out@),
            parse_fonts(data@, p as int, i as int) == Ok::<(Seq<FontRow>, int), IndexError>(
                (font_rows(out@), q as int),
            ),
        decreases n - i,
    {
        match read_font(data, q) {
            Err(e) => {
                proof {
                    lemma_fonts_stop(data@, p as int, i + 1, n as int);
                }
                return Err(e);
            },
            Ok((entry, next)) => {
                let ghost before = font_rows(out@);
                let ghost row = font_row(entry);
                out.push(entry);
                assert(font_rows(out@) =~= before.push(row));
                q = next;
            },
        }
        i = i + 1;
    }
    Ok((out, q))
}

fn read_char(data: &[u8], p: usize) -> (r: Result<(CharFonts, usize), IndexError>)
    requires
        p <= data@.len(),
    ensures
        match parse_char(data@, p as int) {
            Ok((row, q)) => r is Ok && char_row(r->Ok_0.0) == row && r->Ok_0.1 == q && rows_wf(
                r->Ok_0.0.fonts@,
            ) && q <= data@.len(),
            Err(e) => r == Err::<(CharFonts, usize), IndexError>(e),
        },
{
    let len: usize = data.len();
    if len - p < 4 {
        return Err(IndexError::Truncated);
    }
    let code: u32 = read32(data, p);
    let ch: char = match char_from_code(code) {
        Some(c) => c,
        None => {
            return Err(IndexError::InvalidChar);
        },
    };
    if len - p < 8 {
        return Err(IndexError::Truncated);
    }
    let n: u32 = read32(data, p + 4);
    match read_fonts(data, p + 8, n) {
        Err(e) => Err(e),
        Ok((fonts, q)) => {
            if len - q < FEAT_BYTES {
                return Err(IndexError::Truncated);
            }
            proof {
                vstd::utf8::char_u32_cast(ch, code);
            }
            Ok((CharFonts { ch, fonts }, q + FEAT_BYTES))
        },
    }
}

fn read_chars(data: &[u8], p: usize, n: u32) -> (r: Result<(Vec<CharFonts>, usize), IndexError>)
    requires
        p <= data@.len(),
    ensures
        match parse_chars(data@, p as int, n as int) {
            Ok((t, q)) => r is Ok && char_rows(r->Ok_0.0@) == t && r->Ok_0.1 == q && q
                <= data@.len() && distinct_chars(t) && forall|i: int|
                0 <= i < r->Ok_0.0@.len() ==> rows_wf((#[trigger] r->Ok_0.0@[i]).fonts@),
            Err(e) => r == Err::<(Vec<CharFonts>, usize), IndexError>(e),
        },
{
    let mut out: Vec<CharFonts> = Vec::new();
    let mut q: usize = p;
    let mut i: u32 = 0;
    assert(char_rows(out@) =~= Seq::<CharRow>::empty());
    while i < n
        invariant
            i <= n,
            p <= data@.len(),
            q <= data@.len(),
            distinct_chars(char_rows(out@)),
            forall|k: int| 0 <= k < out@.len() ==> rows_wf((#[trigger] out@[k]).fonts@),
            parse_chars(data@, p as int, i as int) == Ok::<(Seq<CharRow>, int), IndexError>(
                (char_rows(out@), q as int),
            ),
        decreases n - i,
    {
        match read_char(data, q) {
            Err(e) => {
                proof {
                    lemma_chars_stop(data@, p as int, i + 1, n as int);
                }
                return Err(e);
            },
            Ok((row, next)) => {
                put_fonts(&mut out, row.ch, row.fonts);
                q = next;
            },
        }
        i = i + 1;
    }
    Ok((out, q))
}

fn read_names(data: &[u8], p: usize, n: u32) -> (r: Result<NameSet, IndexError>)
    requires
        p <= data@.len(),
    ensures
        match parse_names(data@, p as int, n as int) {
            Ok((names, _)) => r is Ok && r->Ok_0.wf() && r->Ok_0@ == names,
            Err(e) => r == Err::<NameSet, IndexError>(e),
        },
{
    let len: usize = data.len();
    let mut out: NameSet = NameSet::new();
    let mut q: usize = p;
    let mut i: u32 = 0;
    while i < n
        invariant
            i <= n,
            len == data@.len(),
            p <= len,
            q <= len,
            out.wf(),
            parse_names(data@, p as int, i as int) == Ok::<(Set<Seq<char>>, int), IndexError>(
                (out@, q as int),
            ),
        decreases n - i,
    {
        if len - q < 4 {
            proof {
                lemma_names_stop(data@, p as int, i + 1, n as int);
            }
            return Err(IndexError::Truncated);
        }
        let k: usize = read32(data, q) as usize;
        if len - q - 4 < k {
            proof {
                lemma_names_stop(data@, p as int, i + 1, n as int);
            }
            return Err(IndexError::TruncatedSkippedName);
        }
        out.insert(read_text(data, q + 4, k));
        q = q + 4 + k;
        i = i + 1;
    }
    Ok(out)
}

/// Whether data begin with the magic bytes.
fn has_magic(data: &[u8]) -> (r: bool)
    requires
        data@.len() >= 4,
    ensures
        r == (data@.subrange(0, 4) == magic()),
{
    let s: bool = data[0] == 0x55 && data[1] == 0x43 && data[2] == 0x49 && data[3] == 0x58;
    proof {
        let head = data@.subrange(0, 4);
        if s {
            assert(head =~= magic());
        } else {
            assert(head[0] == data@[0] && head[1] == data@[1] && head[2] == data@[2] && head[3]
                == data@[3]);
            assert(magic()[0] == 0x55 && magic()[1] == 0x43 && magic()[2] == 0x49 && magic()[3]
                == 0x58);
        }
    }
    s
}

/// Reads an index file. The table of names and the font numbers are built anew; the spreads
/// in the file are passed over, as they are computed from the entries.
pub fn load_index(data: &[u8]) -> (r: Result<CharIndex, IndexError>)
    ensures
        match parse_index(data@) {
            Ok((t, names)) => {
                &&& r is Ok
                &&& r->Ok_0.wf()
                &&& r->Ok_0.rebuilt()
                &&& r->Ok_0.table() == t
                &&& r->Ok_0.skipped_fonts@ == names
                &&& r->Ok_0.dim_sigmas@.len() == 0
            },
            Err(e) => r == Err::<CharIndex, IndexError>(e),
        },
{
    let len: usize = data.len();
    if len < 12 {
        return Err(IndexError::TooSmall);
    }
    if !has_magic(data) {
        return Err(IndexError::NoMagic);
    }
    let version: u32 = read32(data, 4);
    if version != INDEX_VERSION {
        return Err(IndexError::Version(version));
    }
    let feat_len: u32 = read32(data, 8);
    if feat_len != FEAT_LEN as u32 {
        return Err(IndexError::FeatLen(feat_len));
    }
    if len < 16 {
        return Err(IndexError::Truncated);
    }
    let n: u32 = read32(data, 12);
    let (entries, q) = match read_chars(data, 16, n) {
        Err(e) => {
            return Err(e);
        },
        Ok(x) => x,
    };
    let skipped_fonts: NameSet = if len - q < 4 {
        NameSet::new()
    } else {
        match read_names(data, q + 4, read32(data, q)) {
            Err(e) => {
                return Err(e);
            },
            Ok(names) => names,
        }
    };
    let mut index = CharIndex {
        entries,
        skipped_fonts,
        font_names_table: Vec::new(),
        flat_ids: Vec::new(),
        dim_sigmas: Vec::new(),
    };
    index.rebuild_vecs();
    Ok(index)
}

/// Version and feature length in the header of an index file; `None` if there is no complete
/// header or it lacks the magic bytes.
pub fn peek_header(data: &[u8]) -> (r: Option<(u32, u32)>)
    ensures
        r is Some <==> data@.len() >= 12 && data@.subrange(0, 4) == magic(),
        r is Some ==> r->0 == (get32(data@, 4), get32(data@, 8)),
{
    if data.len() < 12 || !has_magic(data) {
        return None;
    }
    Some((read32(data, 4), read32(data, 8)))
}

/// The version and feature length that an index file has now.
pub fn expected_header() -> (r: (u32, u32))
    ensures
        r == (INDEX_VERSION, FEAT_LEN as u32),
{
    (INDEX_VERSION, FEAT_LEN as u32)
}

// --- What is written is read back ---

proof fn lemma_read_font(data: Seq<u8>, p: int, row: FontRow)
    requires
        stands_at(data, p, enc_font(row)),
        short(row.0),
        row.1.len() == FEAT_LEN,
    ensures
        parse_font(data, p) == Ok::<(FontRow, int), IndexError>((row, p + enc_font(row).len())),
{
    let b = encode_utf8(row.0);
    let n = b.len() as u32;
    lemma_enc32s_len(row.1);
    assert(enc_font(row) =~= enc32(n) + (b + enc32s(row.1)));
    lemma_stands_split(data, p, enc32(n), b + enc32s(row.1));
    lemma_stands_split(data, p + 4, b, enc32s(row.1));
    lemma_get32(data, p, n);
    lemma_get32s(data, p + 4 + n, row.1);
    lemma_text_round_trip(row.0);
    assert(data.subrange(p + 4, p + 4 + n) == b);
}

proof fn lemma_read_fonts(data: Seq<u8>, p: int, rows: Seq<FontRow>)
    requires
        stands_at(data, p, enc_fonts(rows)),
        row_fits(rows),
    ensures
        parse_fonts(data, p, rows.len() as int) == Ok::<(Seq<FontRow>, int), IndexError>(
            (rows, p + enc_fonts(rows).len()),
        ),
    decreases rows.len(),
{
    if rows.len() > 0 {
        let head = rows.drop_last();
        lemma_stands_split(data, p, enc_fonts(head), enc_font(rows.last()));
        assert forall|k: int| 0 <= k < head.len() implies short((#[trigger] head[k]).0)
            && head[k].1.len() == FEAT_LEN by {
            assert(head[k] == rows[k]);
        }
        lemma_read_fonts(data, p, head);
        assert(short(rows[rows.len() - 1].0));
        lemma_read_font(data, p + enc_fonts(head).len(), rows.last());
        assert(head.push(rows.last()) =~= rows);
    } else {
        assert(rows =~= Seq::<FontRow>::empty());
    }
}

proof fn lemma_read_char(data: Seq<u8>, p: int, row: CharRow, sigmas: Seq<u32>)
    requires
        stands_at(data, p, enc_char(row, sigmas)),
        row_fits(row.1),
        sigmas.len() == FEAT_LEN,
    ensures
        parse_char(data, p) == Ok::<(CharRow, int), IndexError>(
            (row, p + enc_char(row, sigmas).len()),
        ),
{
    let c = row.0 as u32;
    let n = row.1.len() as u32;
    let tail = enc_fonts(row.1) + enc32s(sigmas);
    lemma_enc32s_len(sigmas);
    lemma_stands_split(data, p, enc32(c), enc32(n) + tail);
    lemma_stands_split(data, p + 4, enc32(n), tail);
    lemma_stands_split(data, p + 8, enc_fonts(row.1), enc32s(sigmas));
    lemma_get32(data, p, c);
    lemma_get32(data, p + 4, n);
    lemma_read_fonts(data, p + 8, row.1);
    vstd::utf8::char_is_scalar(row.0);
    vstd::utf8::char_u32_cast(row.0, c);
}

proof fn lemma_read_chars(
    data: Seq<u8>,
    p: int,
    t: Seq<CharRow>,
    s: Seq<(char, Vec<u32>)>,
)
    requires
        stands_at(data, p, enc_chars(t, s)),
        fits_format(t),
        distinct_chars(t),
        forall|c: char| #[trigger] sigmas_of(s, c).len() == FEAT_LEN,
    ensures
        parse_chars(data, p, t.len() as int) == Ok::<(Seq<CharRow>, int), IndexError>(
            (t, p + enc_chars(t, s).len()),
        ),
    decreases t.len(),
{
    if t.len() > 0 {
        let u = t.drop_last();
        let row = t.last();
        lemma_stands_split(data, p, enc_chars(u, s), enc_char(row, sigmas_of(s, row.0)));
        assert forall|i: int| 0 <= i < u.len() implies row_fits((#[trigger] u[i]).1) by {
            assert(u[i] == t[i]);
        }
        assert forall|i: int, j: int| 0 <= i < j < u.len() implies (#[trigger] u[i]).0 != (
        #[trigger] u[j]).0 by {
            assert(t[i].0 != t[j].0);
        }
        lemma_read_chars(data, p, u, s);
        assert(row_fits(t[t.len() - 1].1));
        lemma_read_char(data, p + enc_chars(u, s).len(), row, sigmas_of(s, row.0));
        lemma_slot(u, row.0);
        if slot(u, row.0) is Some {
            let k = slot(u, row.0)->0;
            assert(t[k].0 != t[t.len() - 1].0);
        }
        assert(u.push(row) =~= t);
    } else {
        assert(t =~= Seq::<CharRow>::empty());
    }
}

proof fn lemma_read_names(data: Seq<u8>, p: int, names: Seq<Seq<char>>)
    requires
        stands_at(data, p, enc_names(names)),
        forall|i: int| 0 <= i < names.len() ==> short(#[trigger] names[i]),
    ensures
        parse_names(data, p, names.len() as int) == Ok::<(Set<Seq<char>>, int), IndexError>(
            (names.to_set(), p + enc_names(names).len()),
        ),
    decreases names.len(),
{
    if names.len() > 0 {
        let head = names.drop_last();
        let last = names.last();
        lemma_stands_split(data, p, enc_names(head), enc_text(last));
        assert forall|i: int| 0 <= i < head.len() implies short(#[trigger] head[i]) by {
            assert(head[i] == names[i]);
        }
        lemma_read_names(data, p, head);
        let q = p + enc_names(head).len();
        let b = encode_utf8(last);
        assert(short(names[names.len() - 1]));
        lemma_stands_split(data, q, enc32(b.len() as u32), b);
        lemma_get32(data, q, b.len() as u32);
        lemma_text_round_trip(last);
        assert(data.subrange(q + 4, q + 4 + b.len()) == b);
        assert forall|x: Seq<char>| head.to_set().insert(last).contains(x)
            <==> names.to_set().contains(x) by {
            if head.contains(x) {
                let k = choose|k: int| 0 <= k < head.len() && head[k] == x;
                assert(names[k] == x);
            }
            if x == last {
                assert(names[names.len() - 1] == x);
            }
            if names.contains(x) {
                let k = choose|k: int| 0 <= k < names.len() && names[k] == x;
                if k < head.len() {
                    assert(head[k] == x);
                }
            }
        }
        assert(head.to_set().insert(last) =~= names.to_set());
    } else {
        assert(names.to_set() =~= Set::<Seq<char>>::empty());
    }
}

/// Where the sections of a written index stand.
proof fn lemma_layout(data: Seq<u8>, t: Seq<CharRow>, s: Seq<(char, Vec<u32>)>, skipped: Seq<Seq<char>>)
    requires
        data == enc_index(t, s, skipped),
    ensures
        data.len() >= 20,
        data.subrange(0, 4) == magic(),
        get32(data, 4) == INDEX_VERSION,
        get32(data, 8) == FEAT_LEN as u32,
        get32(data, 12) == t.len() as u32,
        stands_at(data, 16, enc_chars(t, s)),
        16 + enc_chars(t, s).len() + 4 <= data.len(),
        get32(data, 16 + enc_chars(t, s).len() as int) == skipped.len() as u32,
        stands_at(data, 20 + enc_chars(t, s).len() as int, enc_names(skipped)),
{
    assert(data.subrange(0, data.len() as int) =~= data);
    let tail = enc32(skipped.len() as u32) + enc_names(skipped);
    let r4 = enc_chars(t, s) + tail;
    let r3 = enc32(t.len() as u32) + r4;
    let r2 = enc32(FEAT_LEN as u32) + r3;
    let r1 = enc32(INDEX_VERSION) + r2;
    let q: int = 16 + enc_chars(t, s).len() as int;
    lemma_stands_split(data, 0, magic(), r1);
    lemma_stands_split(data, 4, enc32(INDEX_VERSION), r2);
    lemma_stands_split(data, 8, enc32(FEAT_LEN as u32), r3);
    lemma_stands_split(data, 12, enc32(t.len() as u32), r4);
    lemma_stands_split(data, 16, enc_chars(t, s), tail);
    lemma_stands_split(data, q, enc32(skipped.len() as u32), enc_names(skipped));
    lemma_get32(data, 4, INDEX_VERSION);
    lemma_get32(data, 8, FEAT_LEN as u32);
    lemma_get32(data, 12, t.len() as u32);
    lemma_get32(data, q, skipped.len() as u32);
}

/// What `save_index` writes, `load_index` reads back: the same entries, in the same order,
/// and the same fonts without entries.
pub proof fn law_index_round_trip(
    t: Seq<CharRow>,
    s: Seq<(char, Vec<u32>)>,
    skipped: Seq<Seq<char>>,
)
    requires
        fits_format(t),
        distinct_chars(t),
        forall|c: char| #[trigger] sigmas_of(s, c).len() == FEAT_LEN,
        skipped.len() <= u32::MAX,
        forall|i: int| 0 <= i < skipped.len() ==> short(#[trigger] skipped[i]),
    ensures
        parse_index(enc_index(t, s, skipped)) == Ok::<
            (Seq<CharRow>, Set<Seq<char>>),
            IndexError,
        >((t, skipped.to_set())),
{
    let data = enc_index(t, s, skipped);
    lemma_layout(data, t, s, skipped);
    let q: int = 16 + enc_chars(t, s).len() as int;
    lemma_read_chars(data, 16, t, s);
    lemma_read_names(data, q + 4, skipped);
}

/// A well-formed index is read back as it was saved.
pub proof fn law_saved_index_loads(index: CharIndex)
    requires
        index.wf(),
        fits_format(index.table()),
        index.skipped_fonts.names@.len() <= u32::MAX,
        forall|i: int|
            0 <= i < index.skipped_fonts.names@.len() ==> short(
                (#[trigger] index.skipped_fonts.names@[i])@,
            ),
    ensures
        parse_index(
            enc_index(index.table(), index.dim_sigmas@, texts(index.skipped_fonts.names@)),
        ) == Ok::<(Seq<CharRow>, Set<Seq<char>>), IndexError>(
            (index.table(), index.skipped_fonts@),
        ),
{
    let s = index.dim_sigmas@;
    assert forall|c: char| #[trigger] sigmas_of(s, c).len() == FEAT_LEN by {
        lemma_sigma_slot(s, c);
    }
    law_index_round_trip(index.table(), s, texts(index.skipped_fonts.names@));
}

proof fn lemma_sigma_slot(s: Seq<(char, Vec<u32>)>, c: char)
    ensures
        sigma_slot(s, c) matches Some(k) ==> 0 <= k < s.len(),
    decreases s.len(),
{
    if s.len() > 0 && s.last().0 != c {
        lemma_sigma_slot(s.drop_last(), c);
    }
}

/// The header of a written index is the one that is expected.
pub proof fn law_written_header(
    t: Seq<CharRow>,
    s: Seq<(char, Vec<u32>)>,
    skipped: Seq<Seq<char>>,
)
    ensures
        enc_index(t, s, skipped).len() >= 12,
        enc_index(t, s, skipped).subrange(0, 4) == magic(),
        get32(enc_index(t, s, skipped), 4) == INDEX_VERSION,
        get32(enc_index(t, s, skipped), 8) == FEAT_LEN as u32,
{
    lemma_layout(enc_index(t, s, skipped), t, s, skipped);
}

// --- The format ---

/// An index begins with the letters of its mark, version six and the 57 features, and each
/// fault is told apart, in this order.
pub proof fn law_index_header(data: Seq<u8>)
    ensures
        data.len() < 12 ==> parse_index(data) == Err::<(Seq<CharRow>, Set<Seq<char>>), IndexError>(
            IndexError::TooSmall,
        ),
        data.len() >= 12 && !(data[0] == 0x55 && data[1] == 0x43 && data[2] == 0x49 && data[3]
            == 0x58) ==> parse_index(data) == Err::<(Seq<CharRow>, Set<Seq<char>>), IndexError>(
            IndexError::NoMagic,
        ),
        data.len() >= 12 && data[0] == 0x55 && data[1] == 0x43 && data[2] == 0x49 && data[3] == 0x58
            && get32(data, 4) != 6 ==> parse_index(data) == Err::<
            (Seq<CharRow>, Set<Seq<char>>),
            IndexError,
        >(IndexError::Version(get32(data, 4))),
        data.len() >= 12 && data[0] == 0x55 && data[1] == 0x43 && data[2] == 0x49 && data[3] == 0x58
            && get32(data, 4) == 6 && get32(data, 8) != 57 ==> parse_index(data) == Err::<
            (Seq<CharRow>, Set<Seq<char>>),
            IndexError,
        >(IndexError::FeatLen(get32(data, 8))),
        parse_index(data) matches Ok((t, names)) ==> {
            &&& data.len() >= 16 && get32(data, 4) == 6 && get32(data, 8) == 57
            &&& parse_chars(data, 16, get32(data, 12) as int) matches Ok((rows, q)) && t == rows && (
            q + 4 > data.len() ==> names == Set::<Seq<char>>::empty()) && (q + 4 <= data.len() ==> (
            parse_names(data, q + 4, get32(data, q) as int) matches Ok((s, _)) && names == s))
        },
{
    if data.len() >= 12 {
        let d = data.subrange(0, 4);
        if d == magic() {
            assert(d[0] == data[0] && d[1] == data[1] && d[2] == data[2] && d[3] == data[3]);
        } else if data[0] == 0x55 && data[1] == 0x43 && data[2] == 0x49 && data[3] == 0x58 {
            assert(d =~= magic());
        }
    }
}

/// The record of a font holds the length of its name, the name, and 57 numbers.
pub proof fn law_font_record(data: Seq<u8>, p: int)
    ensures
        parse_font(data, p) matches Ok((row, next)) ==> {
            let n = get32(data, p) as int;
            &&& row.0 == text_from(data.subrange(p + 4, p + 4 + n))
            &&& row.1 == get32s(data, p + 4 + n, 57)
            &&& next == p + 4 + n + 228 && next <= data.len()
        },
        parse_font(data, p) is Ok <==> p + 4 <= data.len() && p + 232 + get32(data, p) <= data.len(),
        parse_font(data, p) == Err::<(FontRow, int), IndexError>(IndexError::TruncatedName) <==> p
            + 4 <= data.len() && p + 4 + get32(data, p) > data.len(),
{
}

/// The record of a character holds its code, how many fonts it has, their records, and 57
/// spreads, which are passed over.
pub proof fn law_char_record(data: Seq<u8>, p: int)
    ensures
        parse_char(data, p) matches Ok((row, next)) ==> {
            &&& row.0 as u32 == get32(data, p)
            &&& parse_fonts(data, p + 8, get32(data, p + 4) as int) matches Ok((rows, q)) && row.1
                == rows && next == q + 228 && next <= data.len()
        },
        p + 4 <= data.len() && !is_char_code(get32(data, p)) ==> parse_char(data, p) == Err::<
            (CharRow, int),
            IndexError,
        >(IndexError::InvalidChar),
{
    if parse_char(data, p) is Ok {
        assert(is_char_code(get32(data, p)));
    }
}

} // verus!
