//! Classifiers that tell the characters of one font apart, and the files that they are
//! cached in.

use vstd::prelude::*;
use vstd::string::*;
use vstd::utf8::encode_utf8;
use crate::bytes::{
    enc32, enc32s, enc64, get32, get32s, get64, lemma_enc32s_len, lemma_get32, lemma_get32s,
    lemma_get64, lemma_stands_split, put32, put32s, put64, read32, read32s, read64, stands_at,
};
use crate::cache::paths::per_font_lda_dir;
use crate::mapped_model::{
    chars_at, first_bad, lemma_none_bad, lemma_vec_stands, magic_of, read_seq, Magic,
};
use crate::ngram_model::{code_points, enc_vecs, lemma_vecs_len, points};
use crate::paths::{join, join_path};
use crate::float_bits::INF;
use crate::sorting::{is_stable_order, key_views, stable_order};
use crate::text::{copy_of, hex, joined, text_of, to_hex};

verus! {

/// The version of the cache files.
pub const LDA_VERSION: u32 = 3;

/// Fonts with less characters than this get no classifier.
pub const MIN_CLASSES: usize = 5;

/// A classifier of the characters of a font.
pub struct PerFontLda {
    /// The projection, row by row: `out_dim` rows of `feat_dim` numbers.
    pub projection: Vec<u32>,
    pub out_dim: u32,
    pub feat_dim: u32,
    /// The centroid of each class, `out_dim` numbers long.
    pub centroids: Vec<Vec<u32>>,
    pub sigma_sq: u32,
    /// The character of each class.
    pub char_map: Vec<char>,
    pub font_key: String,
    pub catalog_hash: u64,
}

/// What a cache file holds.
#[verifier::ext_equal]
pub struct LdaRow {
    pub feat_dim: u32,
    pub out_dim: u32,
    pub chars: Seq<char>,
    pub sigma_sq: u32,
    pub projection: Seq<u32>,
    pub centroids: Seq<Seq<u32>>,
}

// --- Where the cache files are ---

/// The FNV-1a hash of the first `n` bytes.
pub open spec fn fnv1a(s: Seq<u8>, n: int) -> u64
    decreases n,
{
    if n <= 0 {
        0xcbf29ce484222325
    } else {
        (fnv1a(s, n - 1) ^ (s[n - 1] as u64)).wrapping_mul(0x100000001b3)
    }
}

/// The FNV-1a hash of a text in UTF-8.
pub fn key_hash(key: &str) -> (h: u64)
    ensures
        h == fnv1a(encode_utf8(key@), encode_utf8(key@).len() as int),
{
    let b: &[u8] = key.as_bytes();
    let n: usize = b.len();
    let mut h: u64 = 0xcbf29ce484222325;
    for i in 0..n
        invariant
            n == b@.len(),
            h == fnv1a(b@, i as int),
    {
        h = (h ^ (b[i] as u64)).wrapping_mul(0x100000001b3);
    }
    h
}

/// The cache file of a font: the same for the same key in every process.
pub open spec fn cache_file(cache_dir: Seq<char>, key: Seq<char>) -> Seq<char> {
    let bytes = encode_utf8(key);
    join_path(
        join_path(cache_dir, "per-font-lda"@),
        hex(fnv1a(bytes, bytes.len() as int) as int, 16, false) + ".bin"@,
    )
}

impl PerFontLda {
    /// The path of the cache file of a font.
    pub fn cache_path(cache_dir: &str, font_key: &str) -> (path: String)
        ensures
            path@ == cache_file(cache_dir@, font_key@),
    {
        let digits: Vec<char> = to_hex(key_hash(font_key), 16, false);
        let name: String = joined(text_of(&digits).as_str(), ".bin");
        join(per_font_lda_dir(cache_dir).as_str(), name.as_str())
    }
}

// --- The bytes ---

/// The magic bytes `PFHG`.
pub open spec fn lda_magic() -> Seq<u8> {
    seq![0x50u8, 0x46u8, 0x48u8, 0x47u8]
}

impl PerFontLda {
    pub open spec fn row(&self) -> LdaRow {
        LdaRow {
            feat_dim: self.feat_dim,
            out_dim: self.out_dim,
            chars: self.char_map@,
            sigma_sq: self.sigma_sq,
            projection: self.projection@,
            centroids: Seq::new(self.centroids@.len(), |i: int| self.centroids@[i]@),
        }
    }

    pub open spec fn wf(&self) -> bool {
        self.row().wf()
    }
}

impl LdaRow {
    /// The sizes fit together.
    pub open spec fn wf(self) -> bool {
        &&& self.projection.len() == self.out_dim * self.feat_dim
        &&& self.centroids.len() == self.chars.len()
        &&& forall|i: int|
            0 <= i < self.centroids.len() ==> (#[trigger] self.centroids[i]).len() == self.out_dim
    }
}

/// A classifier as bytes.
pub open spec fn enc_lda(r: LdaRow, hash: u64) -> Seq<u8> {
    lda_magic() + (enc32(LDA_VERSION) + (enc64(hash) + (enc32(r.feat_dim) + (enc32(r.out_dim) + (
    enc32(r.chars.len() as u32) + (enc32s(points(r.chars)) + (enc32(r.sigma_sq) + (enc32s(
        r.projection,
    ) + enc_vecs(r.centroids)))))))))
}

/// What a cache file holds, if it is one of this version for the catalog with this hash.
pub open spec fn parse_lda(data: Seq<u8>, hash: u64) -> Option<LdaRow> {
    if data.len() < 28 || magic_of(data) != magic_of(lda_magic()) || get32(data, 4) != LDA_VERSION
        || get64(data, 8) != hash {
        None
    } else {
        let feat_dim = get32(data, 16);
        let out_dim = get32(data, 20);
        let n = get32(data, 24) as int;
        let p = 28 + 4 * n;
        let q = p + 4 + 4 * (out_dim * feat_dim);
        if p > data.len() || first_bad(data, 28, n) is Some || p + 4 > data.len() || q > data.len()
            || q + 4 * (n * out_dim) > data.len() {
            None
        } else {
            Some(
                LdaRow {
                    feat_dim,
                    out_dim,
                    chars: chars_at(data, 28, n),
                    sigma_sq: get32(data, p),
                    projection: get32s(data, p + 4, out_dim * feat_dim),
                    centroids: Seq::new(
                        n as nat,
                        |i: int| get32s(data, q + 4 * (i * out_dim), out_dim as int),
                    ),
                },
            )
        }
    }
}

fn put_rows(out: &mut Vec<u8>, v: &Vec<Vec<u32>>)
    ensures
        final(out)@ == old(out)@ + enc_vecs(Seq::new(v@.len(), |i: int| v@[i]@)),
{
    let ghost before = out@;
    let ghost vecs = Seq::new(v@.len(), |i: int| v@[i]@);
    let n: usize = v.len();
    assert(before + enc_vecs(vecs.take(0)) =~= before);
    for i in 0..n
        invariant
            n == v@.len(),
            vecs == Seq::new(v@.len(), |i: int| v@[i]@),
            out@ == before + enc_vecs(vecs.take(i as int)),
    {
        put32s(out, &v[i]);
        assert(vecs.take(i + 1).drop_last() =~= vecs.take(i as int));
        assert(out@ =~= before + enc_vecs(vecs.take(i + 1)));
    }
    assert(vecs.take(n as int) =~= vecs);
}

/// `n` sequences of `d` numbers each, from position `p` on.
fn read_rows(data: &[u8], p: usize, n: usize, d: usize) -> (v: Vec<Vec<u32>>)
    requires
        p + 4 * (n * d) <= data@.len(),
    ensures
        v@.len() == n,
        forall|i: int|
            0 <= i < n ==> (#[trigger] v@[i])@ == get32s(data@, p + 4 * (i * d), d as int),
{
    let len: usize = data.len();
    let mut out: Vec<Vec<u32>> = Vec::new();
    let mut i: usize = 0;
    let mut q: usize = p;
    assert(0 * d == 0);
    while i < n
        invariant
            i <= n,
            len == data@.len(),
            p + 4 * (n * d) <= len,
            q == p + 4 * (i * d),
            out@.len() == i,
            forall|k: int|
                0 <= k < i ==> (#[trigger] out@[k])@ == get32s(data@, p + 4 * (k * d), d as int),
        decreases n - i,
    {
        assert((i + 1) * d <= n * d) by (nonlinear_arith)
            requires
                i + 1 <= n,
                0 <= d,
        ;
        assert((i + 1) * d == i * d + d) by (nonlinear_arith);
        out.push(read32s(data, q, d));
        q = q + 4 * d;
        i = i + 1;
    }
    out
}

impl PerFontLda {
    /// The classifier as bytes.
    pub fn to_bytes(&self) -> (out: Vec<u8>)
        requires
            self.char_map@.len() <= u32::MAX,
        ensures
            out@ == enc_lda(self.row(), self.catalog_hash),
    {
        let mut out: Vec<u8> = Vec::new();
        out.push(0x50);
        out.push(0x46);
        out.push(0x48);
        out.push(0x47);
        put32(&mut out, LDA_VERSION);
        put64(&mut out, self.catalog_hash);
        put32(&mut out, self.feat_dim);
        put32(&mut out, self.out_dim);
        put32(&mut out, self.char_map.len() as u32);
        let ghost head = out@;
        let cps: Vec<u32> = code_points(&self.char_map);
        put32s(&mut out, &cps);
        put32(&mut out, self.sigma_sq);
        put32s(&mut out, &self.projection);
        put_rows(&mut out, &self.centroids);
        proof {
            let r = self.row();
            let tail = enc32s(points(r.chars)) + (enc32(r.sigma_sq) + (enc32s(r.projection)
                + enc_vecs(r.centroids)));
            assert(out@ =~= head + tail);
            assert(head =~= lda_magic() + enc32(LDA_VERSION) + enc64(self.catalog_hash) + enc32(
                r.feat_dim,
            ) + enc32(r.out_dim) + enc32(r.chars.len() as u32));
            assert(out@ =~= enc_lda(r, self.catalog_hash));
        }
        out
    }

    /// Reads a classifier. There is none where the bytes are not a cache file of this
    /// version, or were written for another catalog, or end too early.
    pub fn from_bytes(data: &[u8], font_key: &str, catalog_hash: u64) -> (r: Option<PerFontLda>)
        ensures
            match parse_lda(data@, catalog_hash) {
                None => r is None,
                Some(row) => r is Some && r->0.row() == row && r->0.wf() && r->0.font_key@
                    == font_key@ && r->0.catalog_hash == catalog_hash,
            },
    {
        let len: usize = data.len();
        if len < 28 {
            return None;
        }
        let found = Magic(data[0], data[1], data[2], data[3]);
        if found != Magic(0x50, 0x46, 0x48, 0x47) {
            return None;
        }
        if read32(data, 4) != LDA_VERSION || read64(data, 8) != catalog_hash {
            return None;
        }
        let feat_dim: u32 = read32(data, 16);
        let out_dim: u32 = read32(data, 20);
        let n: u32 = read32(data, 24);
        let left: u64 = (len - 28) as u64;
        let size: u64 = 4 * (n as u64);
        if left < size {
            return None;
        }
        let char_map: Vec<char> = match read_seq(data, 28, n as usize) {
            Ok(s) => s,
            Err(_) => {
                return None;
            },
        };
        if left - size < 4 {
            return None;
        }
        assert(0 <= out_dim * feat_dim <= 0xffff_ffff * 0xffff_ffff) by (nonlinear_arith)
            requires
                0 <= out_dim <= 0xffff_ffff,
                0 <= feat_dim <= 0xffff_ffff,
        ;
        assert(0 <= n * out_dim <= 0xffff_ffff * 0xffff_ffff) by (nonlinear_arith)
            requires
                0 <= out_dim <= 0xffff_ffff,
                0 <= n <= 0xffff_ffff,
        ;
        let proj: u64 = (out_dim as u64) * (feat_dim as u64);
        let cents: u64 = (n as u64) * (out_dim as u64);
        let rest: u128 = (left - size - 4) as u128;
        if rest < 4 * (proj as u128) + 4 * (cents as u128) {
            return None;
        }
        let p: usize = 28 + 4 * (n as usize);
        let sigma_sq: u32 = read32(data, p);
        let projection: Vec<u32> = read32s(data, p + 4, proj as usize);
        let q: usize = p + 4 + 4 * (proj as usize);
        let centroids: Vec<Vec<u32>> = read_rows(data, q, n as usize, out_dim as usize);
        let r = PerFontLda {
            projection,
            out_dim,
            feat_dim,
            centroids,
            sigma_sq,
            char_map,
            font_key: copy_of(font_key),
            catalog_hash,
        };
        proof {
            let row = parse_lda(data@, catalog_hash)->0;
            assert(r.row().centroids =~= row.centroids);
        }
        Some(r)
    }
}

/// Where the parts of a classifier stand in its bytes.
pub open spec fn lda_layout(data: Seq<u8>, r: LdaRow, hash: u64) -> bool {
    let n = r.chars.len() as int;
    let p = 28 + 4 * n;
    &&& data.len() == p + 4 + 4 * (r.out_dim * r.feat_dim) + 4 * (n * r.out_dim)
    &&& stands_at(data, 0, lda_magic())
    &&& stands_at(data, 4, enc32(LDA_VERSION))
    &&& stands_at(data, 8, enc64(hash))
    &&& stands_at(data, 16, enc32(r.feat_dim))
    &&& stands_at(data, 20, enc32(r.out_dim))
    &&& stands_at(data, 24, enc32(n as u32))
    &&& stands_at(data, 28, enc32s(points(r.chars)))
    &&& stands_at(data, p, enc32(r.sigma_sq))
    &&& stands_at(data, p + 4, enc32s(r.projection))
    &&& stands_at(data, p + 4 + 4 * (r.out_dim * r.feat_dim), enc_vecs(r.centroids))
}

/// Where the parts of a written classifier stand.
proof fn lemma_lda_layout(r: LdaRow, hash: u64)
    requires
        r.wf(),
        r.chars.len() <= u32::MAX,
    ensures
        lda_layout(enc_lda(r, hash), r, hash),
{
    let data = enc_lda(r, hash);
    let n = r.chars.len() as int;
    let d = r.out_dim as int;
    let t9 = enc32s(r.projection) + enc_vecs(r.centroids);
    let t8 = enc32(r.sigma_sq) + t9;
    let t7 = enc32s(points(r.chars)) + t8;
    let t6 = enc32(n as u32) + t7;
    let t5 = enc32(r.out_dim) + t6;
    let t4 = enc32(r.feat_dim) + t5;
    let t3 = enc64(hash) + t4;
    let t2 = enc32(LDA_VERSION) + t3;
    assert(data.subrange(0, data.len() as int) =~= data);
    lemma_stands_split(data, 0, lda_magic(), t2);
    lemma_stands_split(data, 4, enc32(LDA_VERSION), t3);
    lemma_stands_split(data, 8, enc64(hash), t4);
    lemma_stands_split(data, 16, enc32(r.feat_dim), t5);
    lemma_stands_split(data, 20, enc32(r.out_dim), t6);
    lemma_stands_split(data, 24, enc32(n as u32), t7);
    lemma_enc32s_len(points(r.chars));
    lemma_enc32s_len(r.projection);
    lemma_vecs_len(r.centroids, d);
    lemma_stands_split(data, 28, enc32s(points(r.chars)), t8);
    let p = 28 + 4 * n;
    lemma_stands_split(data, p, enc32(r.sigma_sq), t9);
    lemma_stands_split(data, p + 4, enc32s(r.projection), enc_vecs(r.centroids));
}

proof fn lemma_lda_parsed(data: Seq<u8>, r: LdaRow, hash: u64, wanted: u64)
    requires
        r.wf(),
        r.chars.len() <= u32::MAX,
        lda_layout(data, r, hash),
    ensures
        parse_lda(data, wanted) == (if wanted == hash {
            Some(r)
        } else {
            None
        }),
{
    let n = r.chars.len() as int;
    let d = r.out_dim as int;
    let p = 28 + 4 * n;
    let head = data.subrange(0, 4);
    assert(head[0] == data[0] && head[1] == data[1] && head[2] == data[2] && head[3] == data[3]);
    lemma_get32(data, 4, LDA_VERSION);
    lemma_get64(data, 8, hash);
    lemma_get32(data, 16, r.feat_dim);
    lemma_get32(data, 20, r.out_dim);
    lemma_get32(data, 24, n as u32);
    lemma_get32s(data, 28, points(r.chars));
    lemma_none_bad(data, 28, r.chars, n);
    assert(r.chars.take(n) =~= r.chars);
    lemma_get32(data, p, r.sigma_sq);
    lemma_get32s(data, p + 4, r.projection);
    let q = p + 4 + 4 * (r.out_dim * r.feat_dim);
    if wanted == hash {
        let got = parse_lda(data, wanted)->0;
        assert(parse_lda(data, wanted) is Some);
        assert forall|i: int| 0 <= i < n implies #[trigger] got.centroids[i] == r.centroids[i] by {
            lemma_vec_stands(data, q, r.centroids, d, i);
        }
        assert(got.centroids =~= r.centroids);
        assert(got =~= r);
    }
}

/// A classifier that was written is read back, and only for its own catalog.
pub proof fn law_lda_round_trip(r: LdaRow, hash: u64, wanted: u64)
    requires
        r.wf(),
        r.chars.len() <= u32::MAX,
    ensures
        parse_lda(enc_lda(r, hash), wanted) == (if wanted == hash {
            Some(r)
        } else {
            None
        }),
{
    lemma_lda_layout(r, hash);
    lemma_lda_parsed(enc_lda(r, hash), r, hash, wanted);
}

// --- Choosing characters ---

/// The distances as sorting keys.
pub open spec fn distance_keys(d: Seq<u32>) -> Seq<Seq<i64>> {
    Seq::new(d.len(), |i: int| seq![d[i] as i64])
}

impl PerFontLda {
    /// The `k` nearest classes, by ascending distance: character and class. Classes at the
    /// same distance keep their order.
    pub fn nearest_classes(&self, dists: &Vec<u32>, k: usize) -> (r: Vec<(char, usize)>)
        requires
            dists@.len() == self.char_map@.len(),
            forall|i: int| 0 <= i < dists@.len() ==> #[trigger] dists@[i] <= INF,
        ensures
            exists|order: Seq<usize>| #[trigger]
                is_stable_order(distance_keys(dists@), order) && r@ == Seq::new(
                    if k < dists@.len() {
                        k as nat
                    } else {
                        dists@.len()
                    },
                    |i: int| (self.char_map@[order[i] as int], order[i]),
                ),
    {
        let n: usize = dists.len();
        let mut keys: Vec<Vec<i64>> = Vec::new();
        for i in 0..n
            invariant
                n == dists@.len(),
                keys@.len() == i,
                forall|j: int| 0 <= j < i ==> (#[trigger] keys@[j])@ == seq![dists@[j] as i64],
        {
            let mut key: Vec<i64> = Vec::new();
            key.push(dists[i] as i64);
            assert(key@ =~= seq![dists@[i as int] as i64]);
            keys.push(key);
        }
        assert(key_views(keys@) =~= distance_keys(dists@));
        let order: Vec<usize> = stable_order(&keys);
        let m: usize = if k < n {
            k
        } else {
            n
        };
        let mut out: Vec<(char, usize)> = Vec::new();
        for i in 0..m
            invariant
                n == self.char_map@.len(),
                m <= n,
                order@.len() == n,
                forall|a: int| 0 <= a < n ==> #[trigger] order@[a] < n,
                out@ == Seq::new(i as nat, |j: int| (self.char_map@[order@[j] as int], order@[j])),
        {
            let c: usize = order[i];
            out.push((crate::text::char_at(&self.char_map, c), c));
            assert(out@ =~= Seq::new(
                (i + 1) as nat,
                |j: int| (self.char_map@[order@[j] as int], order@[j]),
            ));
        }
        out
    }
}

/// The most dimensions that characters are projected to.
pub const MAX_DIMS: usize = 32;

/// How many dimensions the characters are projected to, if there are enough of them: one less
/// than there are characters, but also less than they are measured by, and not too many.
pub open spec fn dims_for(n_classes: int, feat_dim: int) -> Option<int> {
    if n_classes < MIN_CLASSES {
        None
    } else if n_classes - 1 <= feat_dim - 1 && n_classes - 1 <= MAX_DIMS {
        Some(n_classes - 1)
    } else if feat_dim - 1 <= MAX_DIMS {
        Some(feat_dim - 1)
    } else {
        Some(MAX_DIMS as int)
    }
}

/// How many dimensions the characters are projected to, if there are enough of them.
pub fn projected_dims(n_classes: usize, feat_dim: usize) -> (r: Option<usize>)
    requires
        feat_dim >= 1,
    ensures
        match dims_for(n_classes as int, feat_dim as int) {
            Some(d) => r == Some(d as usize) && 0 <= d <= MAX_DIMS,
            None => r is None,
        },
{
    if n_classes < MIN_CLASSES {
        return None;
    }
    let a: usize = if n_classes - 1 < feat_dim - 1 {
        n_classes - 1
    } else {
        feat_dim - 1
    };
    Some(
        if a < MAX_DIMS {
            a
        } else {
            MAX_DIMS
        },
    )
}

/// The numbers that training gave make a classifier: there are enough characters, and the
/// projection and the centroid of each character have the sizes that follow.
pub open spec fn is_trained(
    chars: Seq<char>,
    feat_dim: u32,
    projection: Seq<u32>,
    centroids: Seq<Seq<u32>>,
) -> bool {
    &&& feat_dim >= 1
    &&& chars.len() <= u32::MAX
    &&& match dims_for(chars.len() as int, feat_dim as int) {
        None => false,
        Some(d) => {
            &&& projection.len() == d * feat_dim
            &&& centroids.len() == chars.len()
            &&& forall|i: int| 0 <= i < centroids.len() ==> (#[trigger] centroids[i]).len() == d
        },
    }
}

/// Whether all sequences have `d` numbers.
pub fn all_long(v: &Vec<Vec<u32>>, d: usize) -> (r: bool)
    ensures
        r <==> forall|i: int| 0 <= i < v@.len() ==> (#[trigger] v@[i])@.len() == d,
{
    let n: usize = v.len();
    for i in 0..n
        invariant
            n == v@.len(),
            forall|k: int| 0 <= k < i ==> (#[trigger] v@[k])@.len() == d,
    {
        if v[i].len() != d {
            assert(v@[i as int]@.len() != d);
            return false;
        }
    }
    true
}

impl PerFontLda {
    /// Makes the classifier of a font from what training gave: the characters, by how many
    /// numbers they are measured, the projection, and the centroid of each character.
    pub fn from_training(
        font_key: &str,
        catalog_hash: u64,
        char_map: Vec<char>,
        feat_dim: u32,
        projection: Vec<u32>,
        centroids: Vec<Vec<u32>>,
        sigma_sq: u32,
    ) -> (r: Option<PerFontLda>)
        ensures
            r is Some <==> is_trained(
                char_map@,
                feat_dim,
                projection@,
                Seq::new(centroids@.len(), |i: int| centroids@[i]@),
            ),
            r is Some ==> r->0.wf() && r->0.char_map@ == char_map@ && r->0.feat_dim == feat_dim
                && Some(r->0.out_dim as int) == dims_for(char_map@.len() as int, feat_dim as int)
                && r->0.projection@ == projection@ && r->0.centroids@ == centroids@
                && r->0.sigma_sq == sigma_sq && r->0.font_key@ == font_key@
                && r->0.catalog_hash == catalog_hash,
    {
        let ghost vecs = Seq::new(centroids@.len(), |i: int| centroids@[i]@);
        let n: usize = char_map.len();
        if feat_dim == 0 || n as u64 > 0xffff_ffff {
            return None;
        }
        let d: usize = match projected_dims(n, feat_dim as usize) {
            None => {
                return None;
            },
            Some(d) => d,
        };
        assert(0 <= d * feat_dim <= 32 * 0xffff_ffff) by (nonlinear_arith)
            requires
                0 <= d <= 32,
                0 <= feat_dim <= 0xffff_ffff,
        ;
        if projection.len() as u64 != d as u64 * feat_dim as u64 || centroids.len() != n {
            return None;
        }
        let long: bool = all_long(&centroids, d);
        proof {
            if long {
                assert forall|i: int| 0 <= i < vecs.len() implies (#[trigger] vecs[i]).len() == d by {
                    assert(vecs[i] == centroids@[i]@);
                }
            } else {
                let i = choose|i: int| 0 <= i < centroids@.len() && (#[trigger] centroids@[i])@.len() != d;
                assert(vecs[i].len() != d);
            }
        }
        if !long {
            return None;
        }
        let r = PerFontLda {
            projection,
            out_dim: d as u32,
            feat_dim,
            centroids,
            sigma_sq,
            char_map,
            font_key: copy_of(font_key),
            catalog_hash,
        };
        assert(r.row().centroids =~= vecs);
        Some(r)
    }
}

/// The characters among the sequences: those of length one.
pub open spec fn single_chars(seqs: Seq<Vec<char>>, n: int) -> Seq<char>
    decreases n,
{
    if n <= 0 {
        Seq::empty()
    } else if seqs[n - 1]@.len() == 1 {
        single_chars(seqs, n - 1).push(seqs[n - 1]@[0])
    } else {
        single_chars(seqs, n - 1)
    }
}

/// The characters that a font's classifier is trained on.
pub fn trained_chars(seqs: &Vec<Vec<char>>) -> (r: Vec<char>)
    ensures
        r@ == single_chars(seqs@, seqs@.len() as int),
{
    let n: usize = seqs.len();
    let mut r: Vec<char> = Vec::new();
    for i in 0..n
        invariant
            n == seqs@.len(),
            r@ == single_chars(seqs@, i as int),
    {
        if seqs[i].len() == 1 {
            r.push(crate::text::char_at(&seqs[i], 0));
        }
    }
    r
}

// --- Loading or training ---

/// What is known of the classifier of a font.
#[derive(Clone, Copy, Debug, PartialEq, Eq, Structural)]
pub enum Source {
    /// It is in memory.
    Memory,
    /// Its cache file was read and is good.
    Disk,
    /// It has to be trained.
    Training,
}

/// Where the classifier of a font comes from: from memory if it is there, else from a
/// cache file that is good, else it is trained.
pub fn classifier_source(in_memory: bool, file_good: bool) -> (s: Source)
    ensures
        s == (if in_memory {
            Source::Memory
        } else if file_good {
            Source::Disk
        } else {
            Source::Training
        }),
{
    if in_memory {
        Source::Memory
    } else if file_good {
        Source::Disk
    } else {
        Source::Training
    }
}

// --- What is stored and chosen ---

/// A file is read only where it begins with its mark, version three and the hash that is asked
/// for, and is long enough for what it tells. It holds the two dimensions and the number of
/// characters, then the codes of the characters, the spread, the projection and the centroids.
pub proof fn law_lda_file(data: Seq<u8>, hash: u64)
    ensures
        data.len() < 28 || !(data[0] == 0x50 && data[1] == 0x46 && data[2] == 0x48 && data[3]
            == 0x47) || get32(data, 4) != 3 || get64(data, 8) != hash ==> parse_lda(data, hash) is None,
        parse_lda(data, hash) matches Some(r) ==> {
            let n = get32(data, 24) as int;
            let cells = r.out_dim * r.feat_dim;
            &&& r.feat_dim == get32(data, 16) && r.out_dim == get32(data, 20)
            &&& r.chars.len() == n && r.centroids.len() == n
            &&& forall|i: int| 0 <= i < n ==> #[trigger] r.chars[i] as u32 == get32(data, 28 + 4 * i)
            &&& r.sigma_sq == get32(data, 28 + 4 * n)
            &&& r.projection == get32s(data, 32 + 4 * n, cells)
            &&& forall|i: int|
                0 <= i < n ==> #[trigger] r.centroids[i] == get32s(
                    data,
                    32 + 4 * n + 4 * cells + 4 * (i * r.out_dim),
                    r.out_dim as int,
                )
            &&& 32 + 4 * n + 4 * cells + 4 * (n * r.out_dim) <= data.len()
        },
{
    if parse_lda(data, hash) is Some {
        let r = parse_lda(data, hash)->0;
        let n = get32(data, 24) as int;
        crate::mapped_model::law_first_bad(data, 28, n);
        assert forall|i: int| 0 <= i < n implies #[trigger] r.chars[i] as u32 == get32(
            data,
            28 + 4 * i,
        ) by {
            assert(crate::bytes::is_char_code(get32(data, 28 + 4 * i)));
            assert(r.chars[i] == get32(data, 28 + 4 * i) as char);
        }
    }
}

/// A classifier for less than five characters is not trained. The dimensions of any other are
/// one less than its characters, one less than its features, or 32, whichever is least.
pub proof fn law_dims(n_classes: int, feat_dim: int)
    requires
        1 <= feat_dim,
    ensures
        dims_for(n_classes, feat_dim) is None <==> n_classes < 5,
        dims_for(n_classes, feat_dim) matches Some(d) ==> {
            &&& d <= n_classes - 1 && d <= feat_dim - 1 && d <= 32
            &&& d == n_classes - 1 || d == feat_dim - 1 || d == 32
        },
{
}

/// The hash of bytes begins with the offset basis of 64 bits, and each byte is mixed in by an
/// exclusive or and a product with the prime.
pub proof fn law_fnv1a(s: Seq<u8>, b: u8)
    ensures
        fnv1a(s, 0) == 0xcbf2_9ce4_8422_2325u64,
        fnv1a(s.push(b), s.len() as int + 1) == ((fnv1a(s, s.len() as int) ^ (b as u64))
            * 0x100_0000_01b3) % 0x1_0000_0000_0000_0000,
{
    lemma_hash_same(s, s.push(b), s.len() as int);
    let h = fnv1a(s, s.len() as int) ^ (b as u64);
    assert(s.push(b)[s.len() as int] == b);
}

proof fn lemma_hash_same(a: Seq<u8>, b: Seq<u8>, n: int)
    requires
        forall|i: int| 0 <= i < n ==> a[i] == b[i],
    ensures
        fnv1a(a, n) == fnv1a(b, n),
    decreases n,
{
    if n > 0 {
        lemma_hash_same(a, b, n - 1);
    }
}

/// The nearest classes come by ascending distance, and of equal ones in their order.
pub proof fn law_nearest_classes(d: Seq<u32>, order: Seq<usize>, a: int, b: int)
    requires
        is_stable_order(distance_keys(d), order),
        0 <= a < b < d.len(),
    ensures
        d[order[a] as int] <= d[order[b] as int],
        d[order[a] as int] == d[order[b] as int] ==> order[a] < order[b],
{
    let keys = distance_keys(d);
    let p = order[a] as int;
    let q = order[b] as int;
    assert(crate::sorting::goes_before(keys, order[a] as int, order[b] as int));
    assert(keys[p] == seq![d[p] as i64] && keys[q] == seq![d[q] as i64]);
    reveal_with_fuel(crate::sorting::lex_le, 2);
    assert(keys[p][0] == d[p] && keys[q][0] == d[q]);
}

/// Trained are the characters that are sequences of their own, in their order.
pub proof fn law_single_chars(seqs: Seq<Vec<char>>)
    ensures
        single_chars(seqs, seqs.len() as int) == seqs.filter_map(
            |s: Vec<char>|
                if s@.len() == 1 {
                    Some(s@[0])
                } else {
                    None
                },
        ),
{
    lemma_single_chars(seqs, seqs.len() as int);
    assert(seqs.take(seqs.len() as int) =~= seqs);
}

proof fn lemma_single_chars(seqs: Seq<Vec<char>>, n: int)
    requires
        0 <= n <= seqs.len(),
    ensures
        single_chars(seqs, n) == seqs.take(n).filter_map(
            |s: Vec<char>|
                if s@.len() == 1 {
                    Some(s@[0])
                } else {
                    None
                },
        ),
    decreases n,
{
    reveal(Seq::filter_map);
    let f = |s: Vec<char>|
        if s@.len() == 1 {
            Some(s@[0])
        } else {
            None
        };
    if n > 0 {
        lemma_single_chars(seqs, n - 1);
        assert(seqs.take(n).drop_last() =~= seqs.take(n - 1));
        assert(seqs.take(n).last() == seqs[n - 1]);
    }
    assert(single_chars(seqs, n) =~= seqs.take(n).filter_map(f));
}

} // verus!
