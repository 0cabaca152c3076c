//! Little-endian numbers and texts in byte buffers.

use vstd::prelude::*;
use vstd::string::*;
use vstd::utf8::{decode_utf8, encode_utf8, valid_utf8};

verus! {

// --- Numbers ---

/// The four bytes of a number, lowest first.
pub open spec fn enc32(v: u32) -> Seq<u8> {
    seq![
        (v % 256) as u8,
        ((v / 256) % 256) as u8,
        ((v / 65536) % 256) as u8,
        ((v / 16777216) % 256) as u8,
    ]
}

/// The number in the four bytes from position `p` on.
pub open spec fn get32(data: Seq<u8>, p: int) -> u32 {
    (data[p] + 256 * data[p + 1] + 65536 * data[p + 2] + 16777216 * data[p + 3]) as u32
}

/// The eight bytes of a number, lowest first.
pub open spec fn enc64(v: u64) -> Seq<u8> {
    enc32((v % 0x1_0000_0000) as u32) + enc32((v / 0x1_0000_0000) as u32)
}

/// The number in the eight bytes from position `p` on.
pub open spec fn get64(data: Seq<u8>, p: int) -> u64 {
    (get32(data, p) + 0x1_0000_0000 * get32(data, p + 4)) as u64
}

/// Numbers one after the other.
pub open spec fn enc32s(v: Seq<u32>) -> Seq<u8>
    decreases v.len(),
{
    if v.len() == 0 {
        Seq::empty()
    } else {
        enc32s(v.drop_last()) + enc32(v.last())
    }
}

/// `n` numbers from position `p` on.
pub open spec fn get32s(data: Seq<u8>, p: int, n: int) -> Seq<u32> {
    Seq::new(n as nat, |i: int| get32(data, p + 4 * i))
}

/// `part` stands in `data` at position `p`.
pub open spec fn stands_at(data: Seq<u8>, p: int, part: Seq<u8>) -> bool {
    0 <= p && p + part.len() <= data.len() && data.subrange(p, p + part.len()) == part
}

/// A concatenation stands where its parts stand one after the other.
pub proof fn lemma_stands_split(data: Seq<u8>, p: int, a: Seq<u8>, b: Seq<u8>)
    requires
        stands_at(data, p, a + b),
    ensures
        stands_at(data, p, a),
        stands_at(data, p + a.len(), b),
{
    let ab = a + b;
    assert(data.subrange(p, p + a.len()) =~= a) by {
        assert forall|i: int| 0 <= i < a.len() implies data[p + i] == a[i] by {
            assert(data.subrange(p, p + ab.len())[i] == ab[i]);
        }
    }
    assert(data.subrange(p + a.len(), p + a.len() + b.len()) =~= b) by {
        assert forall|i: int| 0 <= i < b.len() implies data[p + a.len() + i] == b[i] by {
            assert(data.subrange(p, p + ab.len())[a.len() + i] == ab[a.len() + i]);
        }
    }
}

/// Parts can be put together from either end.
pub proof fn lemma_regroup(a: Seq<u8>, b: Seq<u8>, c: Seq<u8>)
    ensures
        a + b + c == a + (b + c),
{
    assert(a + b + c =~= a + (b + c));
}

/// Where the bytes of a number stand, the number is read.
pub proof fn lemma_get32(data: Seq<u8>, p: int, v: u32)
    requires
        stands_at(data, p, enc32(v)),
    ensures
        get32(data, p) == v,
        p + 4 <= data.len(),
{
    let s = data.subrange(p, p + 4);
    assert(s == enc32(v));
    assert(data[p] == s[0] && data[p + 1] == s[1] && data[p + 2] == s[2] && data[p + 3] == s[3]);
    assert(v == v % 256 + 256 * ((v / 256) % 256) + 65536 * ((v / 65536) % 256) + 16777216 * ((v
        / 16777216) % 256)) by {
        let a = v as int;
        assert(a / 65536 == (a / 256) / 256);
        assert(a / 16777216 == (a / 65536) / 256);
        assert(a / 16777216 < 256);
    }
}

/// Where the bytes of a number stand, the number is read.
pub proof fn lemma_get64(data: Seq<u8>, p: int, v: u64)
    requires
        stands_at(data, p, enc64(v)),
    ensures
        get64(data, p) == v,
        p + 8 <= data.len(),
{
    let lo = (v % 0x1_0000_0000) as u32;
    let hi = (v / 0x1_0000_0000) as u32;
    lemma_stands_split(data, p, enc32(lo), enc32(hi));
    lemma_get32(data, p, lo);
    lemma_get32(data, p + 4, hi);
}

pub proof fn lemma_enc32s_len(v: Seq<u32>)
    ensures
        enc32s(v).len() == 4 * v.len(),
    decreases v.len(),
{
    if v.len() > 0 {
        lemma_enc32s_len(v.drop_last());
    }
}

/// Where the bytes of several numbers stand, the numbers are read.
pub proof fn lemma_get32s(data: Seq<u8>, p: int, v: Seq<u32>)
    requires
        stands_at(data, p, enc32s(v)),
    ensures
        get32s(data, p, v.len() as int) == v,
        p + 4 * v.len() <= data.len(),
    decreases v.len(),
{
    lemma_enc32s_len(v);
    if v.len() > 0 {
        let w = v.drop_last();
        lemma_enc32s_len(w);
        lemma_stands_split(data, p, enc32s(w), enc32(v.last()));
        lemma_get32s(data, p, w);
        lemma_get32(data, p + 4 * w.len(), v.last());
        assert forall|i: int| 0 <= i < v.len() implies #[trigger] get32s(data, p, v.len() as int)[i]
            == v[i] by {
            if i < w.len() {
                assert(get32s(data, p, w.len() as int)[i] == w[i]);
            }
        }
    }
    assert(get32s(data, p, v.len() as int) =~= v);
}

/// A byte is as large as its value.
fn low_byte(v: u32) -> (b: u8)
    ensures
        b == (v % 256) as u8,
{
    (v % 256) as u8
}

/// Appends the four bytes of a number.
pub fn put32(out: &mut Vec<u8>, v: u32)
    ensures
        final(out)@ == old(out)@ + enc32(v),
{
    let ghost before = out@;
    out.push(low_byte(v));
    out.push(low_byte(v / 256));
    out.push(low_byte(v / 65536));
    out.push(low_byte(v / 16777216));
    assert(out@ =~= before + enc32(v));
}

/// Appends the eight bytes of a number.
pub fn put64(out: &mut Vec<u8>, v: u64)
    ensures
        final(out)@ == old(out)@ + enc64(v),
{
    let ghost before = out@;
    put32(out, (v % 0x1_0000_0000) as u32);
    put32(out, (v / 0x1_0000_0000) as u32);
    assert(out@ =~= before + enc64(v));
}

/// Appends the bytes of several numbers.
pub fn put32s(out: &mut Vec<u8>, v: &Vec<u32>)
    ensures
        final(out)@ == old(out)@ + enc32s(v@),
{
    let ghost before = out@;
    let n: usize = v.len();
    assert(before + enc32s(v@.take(0)) =~= before);
    for i in 0..n
        invariant
            n == v@.len(),
            out@ == before + enc32s(v@.take(i as int)),
    {
        put32(out, v[i]);
        assert(v@.take(i + 1).drop_last() =~= v@.take(i as int));
        assert(out@ =~= before + enc32s(v@.take(i + 1)));
    }
    assert(v@.take(n as int) =~= v@);
}

/// Appends bytes.
pub fn put_bytes(out: &mut Vec<u8>, v: &[u8])
    ensures
        final(out)@ == old(out)@ + v@,
{
    let ghost before = out@;
    let n: usize = v.len();
    assert(before + v@.take(0) =~= before);
    for i in 0..n
        invariant
            n == v@.len(),
            out@ == before + v@.take(i as int),
    {
        out.push(v[i]);
        assert(out@ =~= before + v@.take(i + 1));
    }
    assert(v@.take(n as int) =~= v@);
}

/// Reads the number at position `p`.
pub fn read32(data: &[u8], p: usize) -> (v: u32)
    requires
        p + 4 <= data@.len(),
    ensures
        v == get32(data@, p as int),
{
    let n: usize = data.len();
    let a: u32 = data[p] as u32;
    let b: u32 = data[p + 1] as u32;
    let c: u32 = data[p + 2] as u32;
    let d: u32 = data[p + 3] as u32;
    a + 256 * b + 65536 * c + 16777216 * d
}

/// Reads the eight-byte number at position `p`.
pub fn read64(data: &[u8], p: usize) -> (v: u64)
    requires
        p + 8 <= data@.len(),
    ensures
        v == get64(data@, p as int),
{
    let n: usize = data.len();
    let lo: u64 = read32(data, p) as u64;
    let hi: u64 = read32(data, p + 4) as u64;
    lo + 0x1_0000_0000 * hi
}

/// Reads `n` numbers from position `p` on.
pub fn read32s(data: &[u8], p: usize, n: usize) -> (v: Vec<u32>)
    requires
        p + 4 * n <= data@.len(),
    ensures
        v@ == get32s(data@, p as int, n as int),
{
    let len: usize = data.len();
    let mut out: Vec<u32> = Vec::new();
    for i in 0..n
        invariant
            len == data@.len(),
            p + 4 * n <= len,
            out@.len() == i,
            forall|k: int| 0 <= k < i ==> #[trigger] out@[k] == get32(data@, p + 4 * k),
    {
        out.push(read32(data, p + 4 * i));
    }
    assert(out@ =~= get32s(data@, p as int, n as int));
    out
}

// --- Texts ---

/// What `String::from_utf8_lossy` makes of bytes that are not UTF-8.
pub uninterp spec fn repaired(bytes: Seq<u8>) -> Seq<char>;

/// The text that bytes stand for: the one they encode, or a repaired one where they are not
/// valid UTF-8.
pub open spec fn text_from(bytes: Seq<u8>) -> Seq<char> {
    if valid_utf8(bytes) {
        decode_utf8(bytes)
    } else {
        repaired(bytes)
    }
}

/// Calls `String::from_utf8_lossy`. Bytes that are valid UTF-8 give the text that they
/// encode; for others the result is only named.
#[verifier::external_body]
pub(crate) fn decode_lossy(bytes: &[u8]) -> (s: String)
    ensures
        s@ == (if valid_utf8(bytes@) {
            decode_utf8(bytes@)
        } else {
            repaired(bytes@)
        }),
{
    String::from_utf8_lossy(bytes).to_string()
}

/// The bytes of a text, with their number before them.
pub open spec fn enc_text(s: Seq<char>) -> Seq<u8> {
    enc32(encode_utf8(s).len() as u32) + encode_utf8(s)
}

/// A text in UTF-8 is read back.
pub proof fn lemma_text_round_trip(s: Seq<char>)
    ensures
        text_from(encode_utf8(s)) == s,
{
    vstd::utf8::encode_utf8_valid_utf8(s);
    vstd::utf8::encode_utf8_decode_utf8(s);
}

/// Appends a text, with the number of its bytes before it.
pub fn put_text(out: &mut Vec<u8>, s: &str)
    requires
        encode_utf8(s@).len() <= u32::MAX,
    ensures
        final(out)@ == old(out)@ + enc_text(s@),
{
    let ghost before = out@;
    let b: &[u8] = s.as_bytes();
    put32(out, b.len() as u32);
    put_bytes(out, b);
    assert(out@ =~= before + enc_text(s@));
}

/// Reads a text of `n` bytes from position `p` on.
pub fn read_text(data: &[u8], p: usize, n: usize) -> (s: String)
    requires
        p + n <= data@.len(),
    ensures
        s@ == text_from(data@.subrange(p as int, p + n)),
{
    let mut part: Vec<u8> = Vec::new();
    let len: usize = data.len();
    let mut i: usize = 0;
    while i < n
        invariant
            len == data@.len(),
            p + n <= len,
            i <= n,
            part@ == data@.subrange(p as int, p + i),
        decreases n - i,
    {
        part.push(data[p + i]);
        assert(part@ =~= data@.subrange(p as int, p + i + 1));
        i = i + 1;
    }
    decode_lossy(part.as_slice())
}

/// A code point that is a character.
pub open spec fn is_char_code(u: u32) -> bool {
    u < 0xd800 || 0xe000 <= u <= 0x10ffff
}

/// Calls `char::from_u32`, which gives the character with a code point, and nothing for
/// surrogates and numbers beyond the last code point.
#[verifier::external_body]
pub(crate) fn char_from_code(u: u32) -> (r: Option<char>)
    ensures
        r is Some <==> is_char_code(u),
        r is Some ==> r->0 as u32 == u,
{
    char::from_u32(u)
}

/// Numbers are written with their lowest byte first: the four bytes, each weighed 256 times as
/// much as the one before it, add up to the number.
pub proof fn law_little_endian(v: u32)
    ensures
        enc32(v).len() == 4,
        enc32(v)[0] + 0x100 * enc32(v)[1] + 0x1_0000 * enc32(v)[2] + 0x100_0000 * enc32(v)[3] == v,
{
    let a = v / 256;
    let b = a / 256;
    let c = b / 256;
    assert(v == 256 * a + v % 256 && a == 256 * b + a % 256 && b == 256 * c + b % 256);
    assert(v / 65536 == b && v / 16777216 == c && c < 256);
}

/// Numbers of eight bytes are written with their lower half first.
pub proof fn law_little_endian_halves(w: u64)
    ensures
        enc64(w).len() == 8,
        exists|low: u32, high: u32|
            {
                &&& low + 0x1_0000_0000 * high == w
                &&& enc64(w).take(4) == #[trigger] enc32(low)
                &&& enc64(w).skip(4) == #[trigger] enc32(high)
            },
{
    let low = (w % 0x1_0000_0000) as u32;
    let high = (w / 0x1_0000_0000) as u32;
    assert(enc64(w).take(4) =~= enc32(low));
    assert(enc64(w).skip(4) =~= enc32(high));
}

/// Reading a number weighs its four bytes in the same way, whatever stands around them.
pub proof fn law_read_little_endian(data: Seq<u8>, p: int)
    ensures
        get32(data, p) == data[p] + 0x100 * data[p + 1] + 0x1_0000 * data[p + 2] + 0x100_0000
            * data[p + 3],
        get64(data, p) == get32(data, p) + 0x1_0000_0000 * get32(data, p + 4),
{
}

/// Several numbers stand one after the other, four bytes each.
pub proof fn law_numbers_in_row(v: Seq<u32>, i: int)
    requires
        0 <= i < v.len(),
    ensures
        enc32s(v).len() == 4 * v.len(),
        enc32s(v).subrange(4 * i, 4 * i + 4) == enc32(v[i]),
        get32s(enc32s(v), 0, v.len() as int) == v,
    decreases v.len(),
{
    lemma_enc32s_len(v);
    lemma_enc32s_len(v.drop_last());
    assert(enc32s(v).subrange(0, 0 + enc32s(v).len() as int) =~= enc32s(v));
    lemma_get32s(enc32s(v), 0, v);
    if i < v.len() - 1 {
        law_numbers_in_row(v.drop_last(), i);
        assert(enc32s(v).subrange(4 * i, 4 * i + 4) =~= enc32s(v.drop_last()).subrange(
            4 * i,
            4 * i + 4,
        ));
    } else {
        assert(enc32s(v).subrange(4 * i, 4 * i + 4) =~= enc32(v[i]));
    }
}

/// A text is written behind the number of its bytes.
pub proof fn law_text_bytes(s: Seq<char>)
    requires
        encode_utf8(s).len() <= u32::MAX,
    ensures
        get32(enc_text(s), 0) == encode_utf8(s).len(),
        enc_text(s).skip(4) == encode_utf8(s),
        text_from(enc_text(s).skip(4)) == s,
{
    let n = encode_utf8(s).len() as u32;
    assert(enc_text(s).subrange(0, 4) =~= enc32(n));
    lemma_get32(enc_text(s), 0, n);
    assert(enc_text(s).skip(4) =~= encode_utf8(s));
    lemma_text_round_trip(s);
}

} // verus!
