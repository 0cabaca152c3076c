//! The files that samples of rendered characters are kept in, the fonts that they are of, and
//! the files that weights are written to.

use vstd::prelude::*;
use vstd::string::*;
use crate::bytes::{
    enc32, enc32s, get32, get32s, lemma_enc32s_len, lemma_get32, lemma_get32s, lemma_stands_split,
    put32, put32s, put_bytes, read32, read32s, stands_at,
};
use crate::features::{degradable, degrade_and_renormalize, degraded_side, is_degraded, NORM_H};
use crate::glyph::{framable, is_framed_to, normalize_to_ink_bounds};
use crate::raster::{in_size, resize, GrayImage};
use crate::weights::{manifest_ok, threshold_tag, word_at};
use crate::text::{
    chars_of, copy_of, decimal, join, law_decimal_round_trip, law_join_split, lemma_decimal_digits,
    lemma_trim_plain, lines, lines_of, parse_unsigned, same_chars, same_text, split, split_chars,
    text_of, texts, to_decimal, to_padded, trim, trimmed, unsigned_value, views, zero_padded,
};
use crate::training::GlyphNet;

verus! {

// --- File names ---

/// The file for the samples of a character that were rendered from a height with a variant.
pub open spec fn combo_name(char_index: nat, height: nat, variant: nat) -> Seq<char> {
    "char_"@ + zero_padded(char_index, 4) + "_h"@ + decimal(height) + "_aa"@ + decimal(variant)
        + ".bin"@
}

/// The file for the samples of a character that were rendered from a height with a variant.
pub fn combo_file(char_index: u64, height: u32, variant: u64) -> (name: String)
    ensures
        name@ == combo_name(char_index as nat, height as nat, variant as nat),
{
    let mut s: String = copy_of("char_");
    s.append(text_of(&to_padded(char_index, 4)).as_str());
    s.append("_h");
    s.append(text_of(&to_decimal(height as u64)).as_str());
    s.append("_aa");
    s.append(text_of(&to_decimal(variant)).as_str());
    s.append(".bin");
    s
}

/// The file that tells how many samples there are of a height and a variant.
pub fn manifest_file(height: u32, variant: u64) -> (name: String)
    ensures
        name@ == "manifest_h"@ + decimal(height as nat) + "_aa"@ + decimal(variant as nat)
            + ".txt"@,
{
    let mut s: String = copy_of("manifest_h");
    s.append(text_of(&to_decimal(height as u64)).as_str());
    s.append("_aa");
    s.append(text_of(&to_decimal(variant)).as_str());
    s.append(".txt");
    s
}

// --- Manifests ---

/// How many fonts and characters a manifest is of.
pub open spec fn manifest_scope(fonts: nat, chars: nat) -> Seq<char> {
    "fonts="@ + decimal(fonts) + " chars="@ + decimal(chars)
}

/// The first line of a manifest. It tells the ink threshold of the features, where there is
/// one to be told.
pub open spec fn manifest_head(fonts: nat, chars: nat, mark: Option<u8>) -> Seq<char> {
    match mark {
        Some(t) => manifest_scope(fonts, chars) + " "@ + threshold_tag(t),
        None => manifest_scope(fonts, chars),
    }
}

/// The lines of a manifest: the heading, then a count for each character.
pub open spec fn manifest_lines(fonts: nat, counts: Seq<usize>, mark: Option<u8>) -> Seq<Seq<char>> {
    Seq::new(
        counts.len() + 1,
        |i: int|
            if i == 0 {
                manifest_head(fonts, counts.len(), mark)
            } else {
                decimal(counts[i - 1] as nat)
            },
    )
}

fn head_of(fonts: usize, chars: usize, mark: Option<u8>) -> (s: String)
    ensures
        s@ == manifest_head(fonts as nat, chars as nat, mark),
{
    let mut s: String = copy_of("fonts=");
    s.append(text_of(&to_decimal(fonts as u64)).as_str());
    s.append(" chars=");
    s.append(text_of(&to_decimal(chars as u64)).as_str());
    match mark {
        Some(t) => {
            s.append(" ");
            let mut tag: String = copy_of("th=");
            tag.append(text_of(&to_decimal(t as u64)).as_str());
            s.append(tag.as_str());
        },
        None => {},
    }
    s
}

/// The text of a manifest.
pub fn manifest_text(fonts: usize, counts: &Vec<usize>, mark: Option<u8>) -> (s: String)
    ensures
        s@ == join(manifest_lines(fonts as nat, counts@, mark), '\n'),
{
    let n: usize = counts.len();
    let mut s: String = head_of(fonts, n, mark);
    let ghost all = manifest_lines(fonts as nat, counts@, mark);
    proof {
        assert(all.take(1) =~= seq![all[0]]);
    }
    for i in 0..n
        invariant
            n == counts@.len(),
            all == manifest_lines(fonts as nat, counts@, mark),
            s@ == join(all.take(i + 1), '\n'),
    {
        let ghost before = s@;
        s.push('\n');
        s.append(text_of(&to_decimal(counts[i] as u64)).as_str());
        proof {
            assert(all.take(i + 2).drop_last() =~= all.take(i + 1));
            assert(all.take(i + 2).last() == all[i + 1]);
            assert(s@ =~= before.push('\n') + all[i + 1]);
        }
    }
    assert(all.take(n + 1) =~= all);
    s
}

/// The counts of the first `n` lines behind the heading, where they are all numbers.
pub open spec fn counts_in(rows: Seq<Seq<char>>, n: int) -> Option<Seq<int>>
    decreases n,
{
    if n <= 0 {
        Some(Seq::empty())
    } else {
        match (counts_in(rows, n - 1), unsigned_value(trim(rows[n]), usize::MAX as int)) {
            (Some(c), Some(v)) => Some(c.push(v)),
            _ => None,
        }
    }
}

/// The counts of a manifest, where it is one of this many fonts and characters, and of this
/// threshold.
pub open spec fn parsed_manifest(
    content: Seq<char>,
    fonts: nat,
    chars: nat,
    mark: Option<u8>,
) -> Option<Seq<int>> {
    let rows = lines(content);
    if rows.len() != chars + 1 || trim(rows[0]) != manifest_head(fonts, chars, mark) {
        None
    } else {
        counts_in(rows, chars as int)
    }
}

pub open spec fn as_ints(v: Seq<usize>) -> Seq<int> {
    Seq::new(v.len(), |i: int| v[i] as int)
}

proof fn lemma_counts_stop(rows: Seq<Seq<char>>, k: int, n: int)
    requires
        0 <= k <= n,
        counts_in(rows, k) is None,
    ensures
        counts_in(rows, n) is None,
    decreases n - k,
{
    if k < n {
        lemma_counts_stop(rows, k + 1, n);
    }
}

/// Reads a manifest; one of other fonts or characters, or with a line that is no number, gives
/// nothing.
pub fn read_manifest(content: &str, fonts: usize, chars: usize, mark: Option<u8>) -> (r: Option<
    Vec<usize>,
>)
    ensures
        match parsed_manifest(content@, fonts as nat, chars as nat, mark) {
            Some(c) => r is Some && as_ints(r->0@) == c,
            None => r is None,
        },
{
    let rows: Vec<Vec<char>> = lines_of(&chars_of(content));
    let ghost all = lines(content@);
    assert(views(rows@).len() == rows@.len());
    if rows.len() == 0 || rows.len() - 1 != chars {
        return None;
    }
    assert(views(rows@)[0] == rows@[0]@);
    let head: Vec<char> = chars_of(head_of(fonts, chars, mark).as_str());
    if !same_chars(&trimmed(&rows[0]), &head) {
        return None;
    }
    let mut out: Vec<usize> = Vec::new();
    assert(as_ints(out@) =~= Seq::<int>::empty());
    for i in 0..chars
        invariant
            rows@.len() == chars + 1,
            views(rows@) == all,
            counts_in(all, i as int) == Some(as_ints(out@)),
            parsed_manifest(content@, fonts as nat, chars as nat, mark) == counts_in(
                all,
                chars as int,
            ),
    {
        assert(views(rows@)[i + 1] == rows@[i + 1]@);
        let ghost before = as_ints(out@);
        match parse_unsigned(&trimmed(&rows[i + 1]), usize::MAX as u64) {
            Some(v) => {
                out.push(v as usize);
                assert(as_ints(out@) =~= before.push(v as int));
            },
            None => {
                proof {
                    lemma_counts_stop(all, i + 1, chars as int);
                }
                return None;
            },
        }
    }
    Some(out)
}

proof fn lemma_plain_number(n: nat)
    ensures
        trim(decimal(n)) == decimal(n),
        !decimal(n).contains('\n'),
        decimal(n).last() != '\r',
        decimal(n).len() > 0,
{
    lemma_decimal_digits(n);
    let d = decimal(n);
    assert(crate::text::is_digit(d[0]) && crate::text::is_digit(d[d.len() - 1]));
    lemma_trim_plain(d);
    assert forall|k: int| 0 <= k < d.len() implies d[k] != '\n' by {
        assert(crate::text::is_digit(d[k]));
    }
}

/// A text of one line that neither begins nor ends with white space.
pub open spec fn is_row(s: Seq<char>) -> bool {
    &&& s.len() > 0
    &&& trim(s) == s
    &&& !s.contains('\n')
    &&& s.last() != '\r'
}

proof fn lemma_scope_row(fonts: nat, chars: nat)
    ensures
        is_row(manifest_scope(fonts, chars)),
        manifest_scope(fonts, chars)[0] == 'f',
{
    reveal_strlit("fonts=");
    reveal_strlit(" chars=");
    lemma_plain_number(fonts);
    lemma_plain_number(chars);
    lemma_decimal_digits(chars);
    let h = manifest_scope(fonts, chars);
    let f = decimal(fonts);
    let c = decimal(chars);
    assert(h[0] == 'f');
    assert(h.last() == c.last());
    assert(crate::text::is_digit(c[c.len() - 1]));
    lemma_trim_plain(h);
    assert forall|k: int| 0 <= k < h.len() implies h[k] != '\n' by {
        if k < 6 {
            assert(h[k] == "fonts="@[k]);
        } else if k < 6 + f.len() {
            assert(h[k] == f[k - 6]);
            assert(!f.contains('\n'));
        } else if k < 13 + f.len() {
            assert(h[k] == " chars="@[k - 6 - f.len()]);
        } else {
            assert(h[k] == c[k - 13 - f.len()]);
            assert(!c.contains('\n'));
        }
    }
}

proof fn lemma_head_row(fonts: nat, chars: nat, mark: Option<u8>)
    ensures
        is_row(manifest_head(fonts, chars, mark)),
{
    lemma_scope_row(fonts, chars);
    match mark {
        Some(t) => {
            reveal_strlit(" ");
            reveal_strlit("th=");
            let scope = manifest_scope(fonts, chars);
            let d = decimal(t as nat);
            let h = manifest_head(fonts, chars, mark);
            lemma_plain_number(t as nat);
            lemma_decimal_digits(t as nat);
            assert(h[0] == scope[0]);
            assert(h.last() == d.last());
            assert(crate::text::is_digit(d[d.len() - 1]));
            lemma_trim_plain(h);
            assert forall|k: int| 0 <= k < h.len() implies h[k] != '\n' by {
                if k < scope.len() {
                    assert(h[k] == scope[k]);
                } else if k < scope.len() + 1 {
                    assert(h[k] == ' ');
                } else if k < scope.len() + 4 {
                    assert(h[k] == "th="@[k - scope.len() - 1]);
                } else {
                    assert(h[k] == d[k - scope.len() - 4]);
                    assert(!d.contains('\n'));
                }
            }
        },
        None => {},
    }
}

proof fn lemma_counts_read(rows: Seq<Seq<char>>, counts: Seq<usize>, n: int)
    requires
        0 <= n <= counts.len(),
        rows.len() == counts.len() + 1,
        forall|i: int| 0 <= i < counts.len() ==> #[trigger] rows[i + 1] == decimal(counts[i] as nat),
    ensures
        counts_in(rows, n) == Some(as_ints(counts.take(n))),
    decreases n,
{
    if n > 0 {
        lemma_counts_read(rows, counts, n - 1);
        let v = counts[n - 1] as nat;
        assert(rows[(n - 1) + 1] == decimal(v));
        lemma_plain_number(v);
        law_decimal_round_trip(v);
        assert(unsigned_value(decimal(v), usize::MAX as int) == Some(v as int));
        assert(as_ints(counts.take(n)) =~= as_ints(counts.take(n - 1)).push(v as int));
    } else {
        assert(as_ints(counts.take(0)) =~= Seq::<int>::empty());
    }
}

/// The lines of a manifest are read as they were written.
proof fn lemma_manifest_lines(fonts: nat, counts: Seq<usize>, mark: Option<u8>)
    ensures
        lines(join(manifest_lines(fonts, counts, mark), '\n')) == manifest_lines(fonts, counts, mark),
{
    let parts = manifest_lines(fonts, counts, mark);
    let content = join(parts, '\n');
    assert forall|i: int| 0 <= i < parts.len() implies !(#[trigger] parts[i]).contains('\n')
        && parts[i].last() != '\r' && parts[i].len() > 0 by {
        if i == 0 {
            lemma_head_row(fonts, counts.len(), mark);
        } else {
            lemma_plain_number(counts[i - 1] as nat);
        }
    }
    law_join_split(parts, '\n');
    let rows = lines(content);
    assert(parts[parts.len() - 1].len() > 0);
    assert(rows =~= parts) by {
        assert(rows.len() == parts.len());
        assert forall|i: int| 0 <= i < parts.len() implies rows[i] == parts[i] by {
            assert(parts[i].last() != '\r');
        }
    }
}

/// A manifest that was written tells the counts again.
pub proof fn law_manifest_round_trip(fonts: nat, counts: Seq<usize>, mark: Option<u8>)
    ensures
        parsed_manifest(
            join(manifest_lines(fonts, counts, mark), '\n'),
            fonts,
            counts.len(),
            mark,
        ) == Some(as_ints(counts)),
{
    lemma_manifest_lines(fonts, counts, mark);
    lemma_head_row(fonts, counts.len(), mark);
    lemma_counts_read(manifest_lines(fonts, counts, mark), counts, counts.len() as int);
    assert(counts.take(counts.len() as int) =~= counts);
}

/// A manifest that tells a threshold passes for one of that threshold.
pub proof fn law_manifest_current(fonts: nat, counts: Seq<usize>, threshold: u8)
    ensures
        manifest_ok(
            Some(join(manifest_lines(fonts, counts, Some(threshold)), '\n')),
            threshold,
        ),
{
    lemma_manifest_lines(fonts, counts, Some(threshold));
    reveal_strlit(" ");
    let scope = manifest_scope(fonts, counts.len());
    let tag = threshold_tag(threshold);
    let head = manifest_head(fonts, counts.len(), Some(threshold));
    let at: int = scope.len() + 1int;
    assert(head.subrange(at, at + tag.len()) =~= tag);
    assert(head[at - 1] == ' ');
    assert(word_at(head, tag, at));
}

// --- Samples ---

/// A sample: the font that it is of, and the bit patterns of its features. How many features
/// there are depends on the measure in use; the classifiers of the library take the features
/// that tell fonts apart.
pub struct TrainingSample {
    pub font_id: u32,
    pub features: Vec<u32>,
}

/// A sample as a value.
pub type SampleRow = (u32, Seq<u32>);

pub open spec fn sample_rows(v: Seq<TrainingSample>) -> Seq<SampleRow> {
    Seq::new(v.len(), |i: int| (v[i].font_id, v[i].features@))
}

/// How many bytes a sample of `dims` features takes.
pub open spec fn sample_bytes(dims: int) -> int {
    4 + 4 * dims
}

/// A sample in a file.
pub open spec fn enc_sample(s: SampleRow) -> Seq<u8> {
    enc32(s.0) + enc32s(s.1)
}

/// The first `n` samples of a file.
pub open spec fn enc_samples(v: Seq<SampleRow>, n: int) -> Seq<u8>
    decreases n,
{
    if n <= 0 {
        Seq::empty()
    } else {
        enc_samples(v, n - 1) + enc_sample(v[n - 1])
    }
}

/// The `i`-th sample in the bytes of a file, where each has `dims` features.
pub open spec fn sample_at(data: Seq<u8>, i: int, dims: int) -> SampleRow {
    let at = i * sample_bytes(dims);
    (get32(data, at), get32s(data, at + 4, dims))
}

/// Appends a sample to the bytes of a file.
pub fn put_sample(out: &mut Vec<u8>, s: &TrainingSample)
    ensures
        final(out)@ == old(out)@ + enc_sample((s.font_id, s.features@)),
{
    let ghost before = out@;
    put32(out, s.font_id);
    put32s(out, &s.features);
    assert(out@ =~= before + enc_sample((s.font_id, s.features@)));
}

/// Reads `n` samples of `dims` features from the bytes of a file; nothing where there are not
/// as many.
pub fn read_samples(data: &[u8], n: usize, dims: usize) -> (r: Option<Vec<TrainingSample>>)
    ensures
        r is Some <==> n * sample_bytes(dims as int) <= data@.len(),
        r is Some ==> sample_rows(r->0@) == Seq::new(
            n as nat,
            |i: int| sample_at(data@, i, dims as int),
        ),
{
    let len: usize = data.len();
    let size: u128 = 4 + 4 * (dims as u128);
    let ghost d = dims as int;
    assert(size == sample_bytes(d));
    let room: u128 = len as u128 / size;
    assert(n <= room <==> n * size <= len) by (nonlinear_arith)
        requires
            room == len as int / (size as int),
            size > 0,
            0 <= n,
            0 <= len,
    ;
    if (n as u128) > room {
        return None;
    }
    let mut out: Vec<TrainingSample> = Vec::new();
    let mut i: usize = 0;
    let mut p: usize = 0;
    assert(sample_rows(out@) =~= Seq::new(0, |k: int| sample_at(data@, k, d)));
    while i < n
        invariant
            i <= n,
            len == data@.len(),
            d == dims,
            n * sample_bytes(d) <= len,
            p == i * sample_bytes(d),
            sample_rows(out@) == Seq::new(i as nat, |k: int| sample_at(data@, k, d)),
        decreases n - i,
    {
        assert((i + 1) * sample_bytes(d) <= n * sample_bytes(d) && (i + 1) * sample_bytes(d) == i
            * sample_bytes(d) + sample_bytes(d)) by (nonlinear_arith)
            requires
                i + 1 <= n,
                0 <= sample_bytes(d),
        ;
        let s: TrainingSample = TrainingSample {
            font_id: read32(data, p),
            features: read32s(data, p + 4, dims),
        };
        let ghost before = sample_rows(out@);
        out.push(s);
        assert(sample_rows(out@) =~= before.push(sample_at(data@, i as int, d)));
        assert(sample_rows(out@) =~= Seq::new((i + 1) as nat, |k: int| sample_at(data@, k, d)));
        p = p + 4 + 4 * dims;
        i = i + 1;
    }
    Some(out)
}

proof fn lemma_samples_len(v: Seq<SampleRow>, n: int, dims: int)
    requires
        0 <= n <= v.len(),
        forall|i: int| 0 <= i < v.len() ==> (#[trigger] v[i]).1.len() == dims,
    ensures
        enc_samples(v, n).len() == n * sample_bytes(dims),
    decreases n,
{
    if n > 0 {
        lemma_samples_len(v, n - 1, dims);
        assert(v[n - 1].1.len() == dims);
        lemma_enc32s_len(v[n - 1].1);
        assert(n * sample_bytes(dims) == (n - 1) * sample_bytes(dims) + sample_bytes(dims))
            by (nonlinear_arith);
    } else {
        assert(0 * sample_bytes(dims) == 0);
    }
}

proof fn lemma_sample_stands(v: Seq<SampleRow>, n: int, i: int, dims: int)
    requires
        0 <= i < n <= v.len(),
        forall|i: int| 0 <= i < v.len() ==> (#[trigger] v[i]).1.len() == dims,
    ensures
        stands_at(enc_samples(v, n), i * sample_bytes(dims), enc_sample(v[i])),
    decreases n,
{
    let all = enc_samples(v, n);
    let front = enc_samples(v, n - 1);
    lemma_samples_len(v, n - 1, dims);
    assert(v[n - 1].1.len() == dims && v[i].1.len() == dims);
    lemma_enc32s_len(v[n - 1].1);
    lemma_enc32s_len(v[i].1);
    let e = enc_sample(v[i]);
    let at = i * sample_bytes(dims);
    if i == n - 1 {
        assert(all.subrange(front.len() as int, all.len() as int) =~= e);
    } else {
        lemma_sample_stands(v, n - 1, i, dims);
        assert(all.subrange(at, at + e.len()) =~= front.subrange(at, at + e.len()));
    }
}

/// Samples that were written are read again.
pub proof fn law_samples_round_trip(v: Seq<SampleRow>, i: int, dims: int)
    requires
        0 <= i < v.len(),
        forall|i: int| 0 <= i < v.len() ==> (#[trigger] v[i]).1.len() == dims,
    ensures
        enc_samples(v, v.len() as int).len() == v.len() * sample_bytes(dims),
        sample_at(enc_samples(v, v.len() as int), i, dims) == v[i],
{
    let n = v.len() as int;
    let data = enc_samples(v, n);
    lemma_samples_len(v, n, dims);
    lemma_sample_stands(v, n, i, dims);
    let p = i * sample_bytes(dims);
    assert(v[i].1.len() == dims);
    lemma_stands_split(data, p, enc32(v[i].0), enc32s(v[i].1));
    lemma_get32(data, p, v[i].0);
    lemma_get32s(data, p + 4, v[i].1);
}

/// How many samples of each character there are in all, of `n` lists of counts.
pub open spec fn count_sum(lists: Seq<Vec<usize>>, c: int, n: int) -> int
    decreases n,
{
    if n <= 0 {
        0
    } else {
        count_sum(lists, c, n - 1) + lists[n - 1]@[c]
    }
}

proof fn lemma_count_sum(lists: Seq<Vec<usize>>, c: int, m: int, n: int)
    requires
        0 <= m <= n,
    ensures
        0 <= count_sum(lists, c, m) <= count_sum(lists, c, n),
    decreases n, m,
{
    if m < n {
        lemma_count_sum(lists, c, m, n - 1);
    } else if m > 0 {
        lemma_count_sum(lists, c, m - 1, m - 1);
    }
}

/// Adds up the counts of each character.
pub fn char_counts(lists: &Vec<Vec<usize>>, chars: usize) -> (r: Vec<usize>)
    requires
        forall|i: int| 0 <= i < lists@.len() ==> (#[trigger] lists@[i])@.len() == chars,
        forall|c: int|
            0 <= c < chars ==> #[trigger] count_sum(lists@, c, lists@.len() as int) <= usize::MAX,
    ensures
        r@.len() == chars,
        forall|c: int|
            0 <= c < chars ==> #[trigger] r@[c] == count_sum(lists@, c, lists@.len() as int),
{
    let n: usize = lists.len();
    let mut out: Vec<usize> = Vec::new();
    for c in 0..chars
        invariant
            n == lists@.len(),
            forall|i: int| 0 <= i < lists@.len() ==> (#[trigger] lists@[i])@.len() == chars,
            forall|c: int|
                0 <= c < chars ==> #[trigger] count_sum(lists@, c, lists@.len() as int)
                    <= usize::MAX,
            out@.len() == c,
            forall|k: int|
                0 <= k < c ==> #[trigger] out@[k] == count_sum(lists@, k, lists@.len() as int),
    {
        let mut sum: usize = 0;
        for i in 0..n
            invariant
                n == lists@.len(),
                c < chars,
                forall|i: int| 0 <= i < lists@.len() ==> (#[trigger] lists@[i])@.len() == chars,
                forall|c: int|
                    0 <= c < chars ==> #[trigger] count_sum(lists@, c, lists@.len() as int)
                        <= usize::MAX,
                sum == count_sum(lists@, c as int, i as int),
        {
            assert(lists@[i as int]@.len() == chars);
            proof {
                lemma_count_sum(lists@, c as int, i + 1, n as int);
                assert(count_sum(lists@, c as int, n as int) <= usize::MAX);
            }
            sum = sum + lists[i][c];
        }
        out.push(sum);
    }
    out
}

/// The heights that are rendered: every second one where it is to go fast.
pub fn active_heights(heights: &Vec<u32>, fast: bool) -> (r: Vec<u32>)
    ensures
        r@ == (if fast {
            Seq::new(((heights@.len() + 1) / 2) as nat, |i: int| heights@[2 * i])
        } else {
            heights@
        }),
{
    let n: usize = heights.len();
    let mut out: Vec<u32> = Vec::new();
    for i in 0..n
        invariant
            n == heights@.len(),
            fast ==> out@ == Seq::new(((i + 1) / 2) as nat, |k: int| heights@[2 * k]),
            !fast ==> out@ == heights@.take(i as int),
    {
        if !fast || i % 2 == 0 {
            out.push(heights[i]);
        }
        proof {
            if fast {
                assert(out@ =~= Seq::new(((i + 2) / 2) as nat, |k: int| heights@[2 * k]));
            } else {
                assert(out@ =~= heights@.take(i + 1));
            }
        }
    }
    assert(heights@.take(n as int) =~= heights@);
    out
}

// --- Families ---

/// The fonts of a catalog by families.
pub struct Families {
    /// The family of each font.
    pub family: Vec<u32>,
    /// The fonts of each family.
    pub members: Vec<Vec<u32>>,
}

/// The fonts before `n` that are of a family, in their order.
pub open spec fn fonts_of(family: Seq<u32>, f: int, n: int) -> Seq<u32>
    decreases n,
{
    if n <= 0 {
        Seq::empty()
    } else if family[n - 1] == f {
        fonts_of(family, f, n - 1).push((n - 1) as u32)
    } else {
        fonts_of(family, f, n - 1)
    }
}

/// Fonts are of one family where they have the same family name; families are numbered in
/// the order in which they first come.
pub open spec fn are_families(names: Seq<String>, r: Families) -> bool {
    let n = names.len() as int;
    &&& r.family@.len() == n
    &&& forall|i: int| 0 <= i < n ==> (#[trigger] r.family@[i]) < r.members@.len()
    &&& forall|i: int, k: int|
        0 <= i < n && 0 <= k < n ==> (#[trigger] r.family@[i] == #[trigger] r.family@[k]
            <==> names[i]@ == names[k]@)
    &&& forall|f: int|
        0 <= f < r.members@.len() ==> (#[trigger] r.members@[f])@ == fonts_of(r.family@, f, n)
            && r.members@[f]@.len() > 0
    &&& forall|f: int, g: int|
        0 <= f < g < r.members@.len() ==> (#[trigger] r.members@[f])@[0] < (
        #[trigger] r.members@[g])@[0]
}

proof fn lemma_fonts_of_same(a: Seq<u32>, b: Seq<u32>, f: int, n: int)
    requires
        0 <= n <= a.len(),
        n <= b.len(),
        forall|i: int| 0 <= i < n ==> a[i] == b[i],
    ensures
        fonts_of(a, f, n) == fonts_of(b, f, n),
    decreases n,
{
    if n > 0 {
        lemma_fonts_of_same(a, b, f, n - 1);
    }
}

proof fn lemma_fonts_of(family: Seq<u32>, f: int, n: int)
    requires
        0 <= n <= family.len() <= u32::MAX,
    ensures
        forall|k: int|
            0 <= k < fonts_of(family, f, n).len() ==> (#[trigger] fonts_of(family, f, n)[k]) < n
                && family[fonts_of(family, f, n)[k] as int] == f,
    decreases n,
{
    if n > 0 {
        lemma_fonts_of(family, f, n - 1);
        let before = fonts_of(family, f, n - 1);
        assert forall|k: int| 0 <= k < fonts_of(family, f, n).len() implies (#[trigger] fonts_of(
            family,
            f,
            n,
        )[k]) < n && family[fonts_of(family, f, n)[k] as int] == f by {
            if k < before.len() {
                assert(fonts_of(family, f, n)[k] == before[k]);
            }
        }
    }
}

proof fn lemma_none_of(family: Seq<u32>, f: int, n: int)
    requires
        0 <= n <= family.len(),
        forall|i: int| 0 <= i < n ==> family[i] != f,
    ensures
        fonts_of(family, f, n) == Seq::<u32>::empty(),
    decreases n,
{
    if n > 0 {
        lemma_none_of(family, f, n - 1);
    }
}

/// Families of the first `n` fonts; what is kept up font by font.
spec fn family_state(names: Seq<String>, family: Seq<u32>, members: Seq<Vec<u32>>, n: int) -> bool {
    &&& family.len() == n
    &&& members.len() <= n
    &&& forall|i: int| 0 <= i < n ==> (#[trigger] family[i]) < members.len()
    &&& forall|i: int, k: int|
        0 <= i < n && 0 <= k < n ==> (#[trigger] family[i] == #[trigger] family[k] <==> names[i]@
            == names[k]@)
    &&& forall|f: int|
        0 <= f < members.len() ==> (#[trigger] members[f])@ == fonts_of(family, f, n)
            && members[f]@.len() > 0
    &&& forall|f: int, g: int|
        0 <= f < g < members.len() ==> (#[trigger] members[f])@[0] < (#[trigger] members[g])@[0]
}

fn find_family(names: &Vec<String>, family: &Vec<u32>, i: usize) -> (r: Option<u32>)
    requires
        i < names@.len(),
        family@.len() == i,
    ensures
        match r {
            Some(f) => exists|k: int|
                0 <= k < i && #[trigger] family@[k] == f && names@[k]@ == names@[i as int]@,
            None => forall|k: int| 0 <= k < i ==> (#[trigger] names@[k])@ != names@[i as int]@,
        },
{
    for k in 0..i
        invariant
            i < names@.len(),
            family@.len() == i,
            forall|j: int| 0 <= j < k ==> (#[trigger] names@[j])@ != names@[i as int]@,
    {
        if same_text(names[k].as_str(), names[i].as_str()) {
            let f: u32 = family[k];
            assert(family@[k as int] == f);
            return Some(f);
        }
    }
    None
}

/// Puts fonts together by their family names.
pub fn group_families(names: &Vec<String>) -> (r: Families)
    requires
        names@.len() <= u32::MAX,
    ensures
        are_families(names@, r),
{
    let n: usize = names.len();
    let mut family: Vec<u32> = Vec::new();
    let mut members: Vec<Vec<u32>> = Vec::new();
    for i in 0..n
        invariant
            n == names@.len(),
            n <= u32::MAX,
            family_state(names@, family@, members@, i as int),
    {
        let ghost fam = family@;
        let ghost mem = members@;
        match find_family(names, &family, i) {
            Some(f) => {
                let ghost k = choose|k: int|
                    0 <= k < i && #[trigger] fam[k] == f && names@[k]@ == names@[i as int]@;
                assert(fam[k] == f);
                let m: usize = members.len();
                family.push(f);
                let mut list: Vec<u32> = Vec::new();
                std::mem::swap(&mut list, &mut members[f as usize]);
                list.push(i as u32);
                members.set(f as usize, list);
                proof {
                    assert forall|g: int| 0 <= g < members@.len() implies (#[trigger] members@[g])@
                        == fonts_of(family@, g, i + 1) && members@[g]@.len() > 0 by {
                        lemma_fonts_of_same(fam, family@, g, i as int);
                        assert(mem[g]@ == fonts_of(fam, g, i as int));
                    }
                    assert forall|g: int| 0 <= g < members@.len() implies (
                    #[trigger] members@[g])@[0] == mem[g]@[0] by {
                        assert(mem[g]@.len() > 0);
                        if g == f {
                            assert(members@[g]@ == mem[g]@.push(i as u32));
                        } else {
                            assert(members@[g]@ == mem[g]@);
                        }
                    }
                    assert forall|a: int, b: int| 0 <= a < b < members@.len() implies (
                    #[trigger] members@[a])@[0] < (#[trigger] members@[b])@[0] by {
                        assert(mem[a]@[0] < mem[b]@[0]);
                    }
                    assert forall|a: int, b: int| 0 <= a < i + 1 && 0 <= b < i + 1 implies (
                    #[trigger] family@[a] == #[trigger] family@[b] <==> names@[a]@ == names@[b]@) by {
                        if a < i {
                            assert(family@[a] == fam[a]);
                        }
                        if b < i {
                            assert(family@[b] == fam[b]);
                        }
                        assert(fam[k] == f);
                        if a < i && b < i {
                            assert(fam[a] == fam[b] <==> names@[a]@ == names@[b]@);
                        } else if a < i {
                            assert(fam[a] == fam[k] <==> names@[a]@ == names@[k]@);
                        } else if b < i {
                            assert(fam[k] == fam[b] <==> names@[k]@ == names@[b]@);
                        }
                    }
                    assert forall|a: int| 0 <= a < i + 1 implies (#[trigger] family@[a])
                        < members@.len() by {
                        if a < i {
                            assert(family@[a] == fam[a]);
                        }
                    }
                }
            },
            None => {
                let f: u32 = members.len() as u32;
                family.push(f);
                let mut list: Vec<u32> = Vec::new();
                list.push(i as u32);
                members.push(list);
                proof {
                    assert forall|a: int| 0 <= a < i implies family@[a] != f by {
                        assert(family@[a] == fam[a]);
                    }
                    lemma_none_of(family@, f as int, i as int);
                    assert forall|g: int| 0 <= g < members@.len() implies (#[trigger] members@[g])@
                        == fonts_of(family@, g, i + 1) && members@[g]@.len() > 0 by {
                        if g < f {
                            lemma_fonts_of_same(fam, family@, g, i as int);
                            assert(mem[g]@ == fonts_of(fam, g, i as int));
                            assert(members@[g] == mem[g]);
                        } else {
                            assert(members@[g]@ =~= Seq::<u32>::empty().push(i as u32));
                        }
                    }
                    assert forall|a: int, b: int| 0 <= a < b < members@.len() implies (
                    #[trigger] members@[a])@[0] < (#[trigger] members@[b])@[0] by {
                        assert(members@[a] == mem[a]);
                        if b < f {
                            assert(members@[b] == mem[b]);
                            assert(mem[a]@[0] < mem[b]@[0]);
                        } else {
                            assert(mem[a]@ == fonts_of(fam, a, i as int));
                            lemma_fonts_of(fam, a, i as int);
                            assert(fonts_of(fam, a, i as int)[0] < i);
                            assert(members@[b]@[0] == i);
                        }
                    }
                    assert forall|a: int, b: int| 0 <= a < i + 1 && 0 <= b < i + 1 implies (
                    #[trigger] family@[a] == #[trigger] family@[b] <==> names@[a]@ == names@[b]@) by {
                        if a < i {
                            assert(family@[a] == fam[a]);
                        }
                        if b < i {
                            assert(family@[b] == fam[b]);
                        }
                        if a < i && b < i {
                            assert(fam[a] == fam[b] <==> names@[a]@ == names@[b]@);
                        }
                    }
                    assert forall|a: int| 0 <= a < i + 1 implies (#[trigger] family@[a])
                        < members@.len() by {
                        if a < i {
                            assert(family@[a] == fam[a]);
                        }
                    }
                }
            },
        }
    }
    Families { family, members }
}

/// How many families have several fonts.
pub fn multi_variant(f: &Families) -> (r: usize)
    ensures
        r == crate::counting::tally(
            |i: int| f.members@[i]@.len() > 1,
            f.members@.len() as int,
        ),
{
    let n: usize = f.members.len();
    let ghost p = |i: int| f.members@[i]@.len() > 1;
    let mut r: usize = 0;
    for i in 0..n
        invariant
            n == f.members@.len(),
            p == (|i: int| f.members@[i]@.len() > 1),
            r == crate::counting::tally(p, i as int),
            r <= i,
    {
        if f.members[i].len() > 1 {
            r = r + 1;
        }
    }
    r
}

/// A font is in the list of its family alone.
pub proof fn law_family_members(names: Seq<String>, r: Families, i: int, f: int)
    requires
        are_families(names, r),
        names.len() <= u32::MAX,
        0 <= i < names.len(),
        0 <= f < r.members@.len(),
    ensures
        r.members@[f]@.contains(i as u32) <==> r.family@[i] == f,
{
    let n = names.len() as int;
    assert(r.members@[f]@ == fonts_of(r.family@, f, n));
    lemma_fonts_of(r.family@, f, n);
    if r.family@[i] == f {
        lemma_listed(r.family@, f, n, i);
    }
}

proof fn lemma_listed(family: Seq<u32>, f: int, n: int, i: int)
    requires
        0 <= i < n <= family.len(),
        family[i] == f,
    ensures
        fonts_of(family, f, n).contains(i as u32),
    decreases n,
{
    let before = fonts_of(family, f, n - 1);
    if i == n - 1 {
        assert(fonts_of(family, f, n)[before.len() as int] == i as u32);
    } else {
        lemma_listed(family, f, n - 1, i);
        let k = choose|k: int| 0 <= k < before.len() && before[k] == i as u32;
        assert(fonts_of(family, f, n)[k] == i as u32);
    }
}

// --- Ranks ---

/// A distance larger than all others.
pub const FARTHEST: u64 = 0x7fef_ffff_ffff_ffff;

/// The least distance of those of a family, which are given as numbers that order as the
/// distances do.
pub open spec fn is_nearest_of(dists: Seq<u64>, family: Seq<u32>, f: u32, best: u64) -> bool {
    &&& forall|i: int| 0 <= i < dists.len() && family[i] == f ==> best <= #[trigger] dists[i]
    &&& (best == FARTHEST || exists|i: int|
        0 <= i < dists.len() && family[i] == f && #[trigger] dists[i] == best)
    &&& best <= FARTHEST
}

/// A font of another family is nearer.
pub open spec fn other_nearer(dists: Seq<u64>, family: Seq<u32>, f: u32, best: u64) -> spec_fn(
    int,
) -> bool {
    |i: int| family[i] != f && dists[i] < best
}

/// The rank of a family: how many fonts of other families are nearer than its nearest one.
pub fn family_rank(dists: &Vec<u64>, family: &Vec<u32>, f: u32) -> (rank: usize)
    requires
        family@.len() == dists@.len(),
    ensures
        exists|best: u64| #[trigger]
            is_nearest_of(dists@, family@, f, best) && rank == crate::counting::tally(
                other_nearer(dists@, family@, f, best),
                dists@.len() as int,
            ),
{
    let n: usize = dists.len();
    let mut best: u64 = FARTHEST;
    for i in 0..n
        invariant
            n == dists@.len(),
            family@.len() == n,
            best <= FARTHEST,
            forall|k: int| 0 <= k < i && family@[k] == f ==> best <= #[trigger] dists@[k],
            best == FARTHEST || exists|k: int|
                0 <= k < i && family@[k] == f && #[trigger] dists@[k] == best,
    {
        if family[i] == f && dists[i] < best {
            best = dists[i];
            assert(dists@[i as int] == best);
        }
    }
    assert(is_nearest_of(dists@, family@, f, best));
    let mut rank: usize = 0;
    for i in 0..n
        invariant
            n == dists@.len(),
            family@.len() == n,
            rank == crate::counting::tally(other_nearer(dists@, family@, f, best), i as int),
            rank <= i,
    {
        if family[i] != f && dists[i] < best {
            rank = rank + 1;
        }
    }
    rank
}

// --- Weights ---

/// The weights of a character, one for each dimension.
pub struct FisherRow {
    pub ch: char,
    pub scores: Vec<u32>,
}

/// The first `n` rows of a file of weights.
pub open spec fn enc_rows(v: Seq<FisherRow>, n: int) -> Seq<u8>
    decreases n,
{
    if n <= 0 {
        Seq::empty()
    } else {
        enc_rows(v, n - 1) + (enc32(v[n - 1].ch as u32) + enc32s(v[n - 1].scores@))
    }
}

/// The mark of a file of weights.
pub open spec fn fisher_mark() -> Seq<u8> {
    seq![70u8, 73u8, 83u8, 72u8]
}

/// The bytes of a file of weights: its mark, version one, how many characters and dimensions
/// it has, then the weights of each character. The dimensions are those of the samples that the
/// weights were learnt from.
pub fn fisher_bytes(rows: &Vec<FisherRow>, dims: u32) -> (out: Vec<u8>)
    requires
        rows@.len() <= u32::MAX,
    ensures
        out@ == fisher_mark() + enc32(1) + enc32(rows@.len() as u32) + enc32(dims) + enc_rows(
            rows@,
            rows@.len() as int,
        ),
{
    let n: usize = rows.len();
    let mut out: Vec<u8> = vec![70, 73, 83, 72];
    assert(out@ =~= fisher_mark());
    put32(&mut out, 1);
    put32(&mut out, n as u32);
    put32(&mut out, dims);
    let ghost head = out@;
    assert(out@ =~= head + enc_rows(rows@, 0));
    for i in 0..n
        invariant
            n == rows@.len(),
            out@ == head + enc_rows(rows@, i as int),
    {
        put32(&mut out, rows[i].ch as u32);
        put32s(&mut out, &rows[i].scores);
        assert(out@ =~= head + enc_rows(rows@, i + 1));
    }
    out
}

/// The net of a character.
pub struct NetEntry {
    pub ch: char,
    pub net: GlyphNet,
}

/// The first `n` nets of a file.
pub open spec fn enc_net_entries(v: Seq<NetEntry>, n: int) -> Seq<u8>
    decreases n,
{
    if n <= 0 {
        Seq::empty()
    } else {
        enc_net_entries(v, n - 1) + (enc32(v[n - 1].ch as u32) + enc32s(v[n - 1].net.flat()))
    }
}

/// The mark of a file of nets.
pub open spec fn triplet_mark() -> Seq<u8> {
    seq![84u8, 82u8, 73u8, 80u8]
}

/// The bytes of a file of nets: its mark, version one, how many characters it has, then the
/// net of each character.
pub fn triplet_bytes(nets: &Vec<NetEntry>) -> (out: Vec<u8>)
    requires
        nets@.len() <= u32::MAX,
        forall|i: int| 0 <= i < nets@.len() ==> (#[trigger] nets@[i]).net.wf(),
    ensures
        out@ == triplet_mark() + enc32(1) + enc32(nets@.len() as u32) + enc_net_entries(
            nets@,
            nets@.len() as int,
        ),
{
    let n: usize = nets.len();
    let mut out: Vec<u8> = vec![84, 82, 73, 80];
    assert(out@ =~= triplet_mark());
    put32(&mut out, 1);
    put32(&mut out, n as u32);
    let ghost head = out@;
    assert(out@ =~= head + enc_net_entries(nets@, 0));
    for i in 0..n
        invariant
            n == nets@.len(),
            forall|i: int| 0 <= i < nets@.len() ==> (#[trigger] nets@[i]).net.wf(),
            out@ == head + enc_net_entries(nets@, i as int),
    {
        assert(nets@[i as int].net.wf());
        put32(&mut out, nets[i].ch as u32);
        put32s(&mut out, &nets[i].net.flatten());
        assert(out@ =~= head + enc_net_entries(nets@, i + 1));
    }
    out
}

// --- Rendering ---

/// Brings a rendered character to the usual height, as if it had been `height` high at first:
/// one that is higher is made smaller before. The width in proportion is rounded by the
/// caller.
pub fn at_native_height(img: &GrayImage, height: u32, scaled_w: u32) -> (r: Option<GrayImage>)
    requires
        img.wf(),
        height >= img.height ==> framable(*img, NORM_H),
        height < img.height ==> degradable(*img, degraded_side(scaled_w), degraded_side(height)),
    ensures
        height >= img.height ==> is_framed_to(*img, NORM_H as int, r),
        height < img.height ==> is_degraded(*img, scaled_w, height, r),
{
    if height >= img.height {
        normalize_to_ink_bounds(img, NORM_H)
    } else {
        degrade_and_renormalize(img, scaled_w, height)
    }
}

/// Heights from this one on are not made smaller in training.
pub const FULL_HEIGHT: u32 = 48;

/// The width of a sample in training.
pub open spec fn sample_width(scaled_w: u32) -> u32 {
    if scaled_w < 1 {
        1
    } else {
        scaled_w
    }
}

/// Brings a rendered character to the usual height, as training does: below the full height
/// it is made `height` high before. An image without cells gives nothing then.
pub fn at_training_height(img: &GrayImage, height: u32, scaled_w: u32) -> (r: Option<GrayImage>)
    requires
        img.wf(),
        height >= FULL_HEIGHT ==> framable(*img, NORM_H),
        height < FULL_HEIGHT ==> degradable(*img, sample_width(scaled_w), height),
    ensures
        height >= FULL_HEIGHT ==> is_framed_to(*img, NORM_H as int, r),
        height < FULL_HEIGHT && (img.width == 0 || img.height == 0) ==> r is None,
        height < FULL_HEIGHT && img.width > 0 && img.height > 0 ==> exists|small: GrayImage|
            #[trigger]
            in_size(*img, sample_width(scaled_w), height, small) && is_framed_to(
                small,
                NORM_H as int,
                r,
            ),
{
    if height >= FULL_HEIGHT {
        return normalize_to_ink_bounds(img, NORM_H);
    }
    if img.width == 0 || img.height == 0 {
        return None;
    }
    let w: u32 = if scaled_w < 1 {
        1
    } else {
        scaled_w
    };
    let small: GrayImage = resize(img, w, height);
    assert(in_size(*img, sample_width(scaled_w), height, small));
    normalize_to_ink_bounds(&small, NORM_H)
}

/// The record of an image in a file of images: its height, its width, its cells.
pub fn image_record(img: &GrayImage) -> (out: Vec<u8>)
    ensures
        out@ == enc32(img.height) + enc32(img.width) + img.data@,
{
    let mut out: Vec<u8> = Vec::new();
    put32(&mut out, img.height);
    put32(&mut out, img.width);
    put_bytes(&mut out, img.data.as_slice());
    assert(out@ =~= enc32(img.height) + enc32(img.width) + img.data@);
    out
}

/// How many images a run renders.
pub fn render_count(fonts: usize, chars: usize, heights: usize, variants: usize) -> (n: usize)
    requires
        fonts * chars <= usize::MAX,
        fonts * chars * heights <= usize::MAX,
        fonts * chars * heights * variants <= usize::MAX,
    ensures
        n == fonts * chars * heights * variants,
{
    fonts * chars * heights * variants
}

/// How many fonts of a catalog are taken; a limit of zero is none.
pub fn fonts_taken(fonts: usize, limit: usize) -> (n: usize)
    ensures
        n == (if limit > 0 && fonts > limit {
            limit
        } else {
            fonts
        }),
{
    if limit > 0 && fonts > limit {
        limit
    } else {
        fonts
    }
}

// --- Resolutions ---

/// The numbers among the first `n` parts.
pub open spec fn numbers_among(parts: Seq<Seq<char>>, n: int) -> Seq<int>
    decreases n,
{
    if n <= 0 {
        Seq::empty()
    } else {
        match unsigned_value(trim(parts[n - 1]), u32::MAX as int) {
            Some(v) => numbers_among(parts, n - 1).push(v),
            None => numbers_among(parts, n - 1),
        }
    }
}

pub open spec fn resolutions(v: Seq<u32>) -> Seq<int> {
    Seq::new(v.len(), |i: int| v[i] as int)
}

/// The resolutions that are asked for: the numbers between commas, or three usual ones where
/// nothing is asked.
pub fn parse_dpis(arg: Option<&str>) -> (r: Vec<u32>)
    ensures
        resolutions(r@) == match arg {
            Some(s) => numbers_among(split(s@, ','), split(s@, ',').len() as int),
            None => seq![300int, 200int, 100int],
        },
{
    match arg {
        None => {
            let r: Vec<u32> = vec![300, 200, 100];
            assert(resolutions(r@) =~= seq![300int, 200int, 100int]);
            r
        },
        Some(s) => {
            let parts: Vec<Vec<char>> = split_chars(&chars_of(s), ',');
            let n: usize = parts.len();
            let ghost all = split(s@, ',');
            assert(views(parts@).len() == n);
            let mut out: Vec<u32> = Vec::new();
            assert(resolutions(out@) =~= numbers_among(all, 0));
            for i in 0..n
                invariant
                    n == parts@.len(),
                    views(parts@) == all,
                    resolutions(out@) == numbers_among(all, i as int),
            {
                assert(views(parts@)[i as int] == parts@[i as int]@);
                let ghost before = resolutions(out@);
                match parse_unsigned(&trimmed(&parts[i]), 0xffff_ffff) {
                    Some(v) => {
                        out.push(v as u32);
                        assert(resolutions(out@) =~= before.push(v as int));
                    },
                    None => {},
                }
            }
            out
        },
    }
}

/// The heading of a table of features: the names of its columns behind those of the sample.
pub open spec fn table_heading(names: Seq<Seq<char>>, n: int) -> Seq<char>
    decreases n,
{
    if n <= 0 {
        "font_name,char,dpi"@
    } else {
        table_heading(names, n - 1) + ","@ + names[n - 1]
    }
}

/// The heading of a table of features with these names.
pub fn csv_heading(names: &Vec<String>) -> (s: String)
    ensures
        s@ == table_heading(texts(names@), names@.len() as int),
{
    let n: usize = names.len();
    let mut s: String = copy_of("font_name,char,dpi");
    for i in 0..n
        invariant
            n == names@.len(),
            s@ == table_heading(texts(names@), i as int),
    {
        s.append(",");
        s.append(names[i].as_str());
        assert(texts(names@)[i as int] == names@[i as int]@);
    }
    s
}

// --- What is read and counted ---

/// A manifest is read only where it has a line for each character behind its first one, and the
/// first one tells the same fonts, characters and threshold. Its counts are the numbers of the
/// lines, in their order, and a line that is no number spoils it.
pub proof fn law_manifest_read(content: Seq<char>, fonts: nat, chars: nat, mark: Option<u8>)
    ensures
        ({
            let rows = lines(content);
            let head = "fonts="@ + decimal(fonts) + " chars="@ + decimal(chars);
            let first = match mark {
                Some(t) => head + " "@ + threshold_tag(t),
                None => head,
            };
            &&& parsed_manifest(content, fonts, chars, mark) is Some <==> rows.len() == chars + 1
                && trim(rows[0]) == first && forall|i: int|
                1 <= i <= chars ==> unsigned_value(trim(#[trigger] rows[i]), usize::MAX as int) is Some
            &&& parsed_manifest(content, fonts, chars, mark) matches Some(c) ==> {
                &&& c.len() == chars
                &&& forall|i: int|
                    0 <= i < chars ==> Some(#[trigger] c[i]) == unsigned_value(
                        trim(rows[i + 1]),
                        usize::MAX as int,
                    )
            }
        }),
{
    lemma_counts_in(lines(content), chars as int);
}

proof fn lemma_counts_in(rows: Seq<Seq<char>>, n: int)
    requires
        0 <= n,
    ensures
        counts_in(rows, n) is Some <==> forall|i: int|
            1 <= i <= n ==> unsigned_value(trim(#[trigger] rows[i]), usize::MAX as int) is Some,
        counts_in(rows, n) matches Some(c) ==> c.len() == n && forall|i: int|
            0 <= i < n ==> Some(#[trigger] c[i]) == unsigned_value(
                trim(rows[i + 1]),
                usize::MAX as int,
            ),
    decreases n,
{
    if n > 0 {
        lemma_counts_in(rows, n - 1);
        if forall|i: int|
            1 <= i <= n ==> unsigned_value(trim(#[trigger] rows[i]), usize::MAX as int) is Some {
            assert(unsigned_value(trim(rows[n]), usize::MAX as int) is Some);
        }
        if counts_in(rows, n) is Some {
            assert forall|i: int| 1 <= i <= n implies unsigned_value(
                trim(#[trigger] rows[i]),
                usize::MAX as int,
            ) is Some by {
                if i < n {
                    assert(1 <= i <= n - 1);
                }
            }
        }
    }
}

/// The counts of a character are added over all lists.
pub proof fn law_count_sum(lists: Seq<Vec<usize>>, c: int, n: int)
    ensures
        count_sum(lists, c, n) == crate::counting::total(|i: int| lists[i]@[c] as int, n),
    decreases n,
{
    if n > 0 {
        law_count_sum(lists, c, n - 1);
    }
}

/// The rank of a family counts the fonts of other families that are nearer than all its own
/// fonts, and nearer than the farthest distance.
pub proof fn law_family_rank(dists: Seq<u64>, family: Seq<u32>, f: u32, best: u64)
    requires
        family.len() == dists.len(),
        is_nearest_of(dists, family, f, best),
    ensures
        crate::counting::tally(other_nearer(dists, family, f, best), dists.len() as int)
            == crate::counting::tally(
            |i: int|
                family[i] != f && dists[i] < 0x7fef_ffff_ffff_ffff && forall|j: int|
                    0 <= j < dists.len() && family[j] == f ==> dists[i] < #[trigger] dists[j],
            dists.len() as int,
        ),
{
    let p = other_nearer(dists, family, f, best);
    let q = |i: int|
        family[i] != f && dists[i] < 0x7fef_ffff_ffff_ffff && forall|j: int|
            0 <= j < dists.len() && family[j] == f ==> dists[i] < #[trigger] dists[j];
    assert forall|i: int| 0 <= i < dists.len() implies #[trigger] p(i) == q(i) by {
        if q(i) && best != FARTHEST {
            let j = choose|j: int|
                0 <= j < dists.len() && family[j] == f && #[trigger] dists[j] == best;
            assert(dists[i] < dists[j]);
        }
    }
    crate::counting::lemma_tally_same(p, q, dists.len() as int);
}

/// The resolutions asked for are the parts that are numbers, in their order.
pub proof fn law_numbers_among(parts: Seq<Seq<char>>)
    ensures
        numbers_among(parts, parts.len() as int) == parts.filter_map(
            |s: Seq<char>| unsigned_value(trim(s), u32::MAX as int),
        ),
{
    lemma_numbers_among(parts, parts.len() as int);
    assert(parts.take(parts.len() as int) =~= parts);
}

proof fn lemma_numbers_among(parts: Seq<Seq<char>>, n: int)
    requires
        0 <= n <= parts.len(),
    ensures
        numbers_among(parts, n) == parts.take(n).filter_map(
            |s: Seq<char>| unsigned_value(trim(s), u32::MAX as int),
        ),
    decreases n,
{
    reveal(Seq::filter_map);
    let f = |s: Seq<char>| unsigned_value(trim(s), u32::MAX as int);
    if n > 0 {
        lemma_numbers_among(parts, n - 1);
        assert(parts.take(n).drop_last() =~= parts.take(n - 1));
        assert(parts.take(n).last() == parts[n - 1]);
        assert(numbers_among(parts, n) =~= parts.take(n).filter_map(f));
    } else {
        assert(numbers_among(parts, n) =~= parts.take(n).filter_map(f));
    }
}

/// In a file of weights, the row of a character stands behind the rows before it, which take
/// four bytes for the character and four for each weight: the code of the character first,
/// then its weights.
pub proof fn law_fisher_rows(v: Seq<FisherRow>, i: int, dims: int)
    requires
        0 <= i < v.len(),
        forall|k: int| 0 <= k < v.len() ==> (#[trigger] v[k]).scores@.len() == dims,
    ensures
        enc_rows(v, v.len() as int).len() == v.len() * (4 + 4 * dims),
        get32(enc_rows(v, v.len() as int), i * (4 + 4 * dims)) == v[i].ch as u32,
        get32s(enc_rows(v, v.len() as int), i * (4 + 4 * dims) + 4, dims) == v[i].scores@,
{
    let n = v.len() as int;
    lemma_fisher_len(v, n, dims);
    lemma_fisher_at(v, n, i, dims);
    let all = enc_rows(v, n);
    let at = i * (4 + 4 * dims);
    lemma_stands_split(all, at, enc32(v[i].ch as u32), enc32s(v[i].scores@));
    lemma_get32(all, at, v[i].ch as u32);
    lemma_get32s(all, at + 4, v[i].scores@);
}

proof fn lemma_fisher_len(v: Seq<FisherRow>, n: int, dims: int)
    requires
        0 <= n <= v.len(),
        forall|k: int| 0 <= k < v.len() ==> (#[trigger] v[k]).scores@.len() == dims,
    ensures
        enc_rows(v, n).len() == n * (4 + 4 * dims),
    decreases n,
{
    if n > 0 {
        lemma_fisher_len(v, n - 1, dims);
        lemma_enc32s_len(v[n - 1].scores@);
        assert(n * (4 + 4 * dims) == (n - 1) * (4 + 4 * dims) + (4 + 4 * dims)) by (nonlinear_arith);
    } else {
        assert(0 * (4 + 4 * dims) == 0) by (nonlinear_arith);
    }
}

proof fn lemma_fisher_at(v: Seq<FisherRow>, n: int, i: int, dims: int)
    requires
        0 <= i < n <= v.len(),
        forall|k: int| 0 <= k < v.len() ==> (#[trigger] v[k]).scores@.len() == dims,
    ensures
        stands_at(
            enc_rows(v, n),
            i * (4 + 4 * dims),
            enc32(v[i].ch as u32) + enc32s(v[i].scores@),
        ),
    decreases n,
{
    lemma_fisher_len(v, n - 1, dims);
    lemma_fisher_len(v, i, dims);
    lemma_enc32s_len(v[i].scores@);
    let row = enc32(v[i].ch as u32) + enc32s(v[i].scores@);
    let at = i * (4 + 4 * dims);
    assert(0 <= at) by (nonlinear_arith)
        requires
            at == i * (4 + 4 * dims),
            0 <= i,
            0 <= dims,
    ;
    if i < n - 1 {
        lemma_fisher_at(v, n - 1, i, dims);
        let before = enc_rows(v, n - 1);
        assert(enc_rows(v, n).subrange(at, at + row.len()) =~= before.subrange(at, at + row.len()));
    } else {
        assert(enc_rows(v, n).subrange(at, at + row.len()) =~= row);
    }
}

/// A sample in training is at least one column wide.
pub proof fn law_sample_width(scaled_w: u32)
    ensures
        sample_width(scaled_w) >= 1,
        scaled_w >= 1 ==> sample_width(scaled_w) == scaled_w,
{
}

} // verus!
