//! Nearest-centroid models, one for each character sequence, and the bytes that they are
//! stored as.
//!
//! Floating-point numbers are carried as their bit patterns.

use vstd::prelude::*;
use crate::bytes::{
    enc32, enc32s, enc64, lemma_enc32s_len, lemma_regroup, put32, put32s, put64, put_bytes,
};
use crate::seq_map::SeqMap;
use crate::text::views;

verus! {

/// The model of one character sequence.
pub struct ImageModel {
    /// What the query is weighted by.
    pub weights: Vec<u32>,
    /// Each glyph with its centroid.
    pub centroids: Vec<(u32, Vec<u32>)>,
    /// The scale of squared distances.
    pub sigma_sq: u32,
    /// The median squared distance of a centroid to its nearest neighbour.
    pub med_nn: u32,
}

/// The models of character sequences.
pub struct NgramModel {
    pub entries: SeqMap<ImageModel>,
    /// The hash of the font catalog that the model was trained on.
    pub catalog_hash: u64,
}

/// What a model holds.
#[verifier::ext_equal]
pub struct ModelRow {
    pub weights: Seq<u32>,
    pub ids: Seq<u32>,
    pub vecs: Seq<Seq<u32>>,
    pub sigma_sq: u32,
    pub med_nn: u32,
}

/// The fixed part of an index entry. Offsets count from the start of the data section.
#[derive(Clone, Copy, Debug, PartialEq, Eq, Structural)]
pub struct IndexedEntry {
    pub n_weights: u32,
    pub weights_off: u32,
    pub n_centroids: u32,
    pub gids_off: u32,
    pub vecs_off: u32,
    pub vec_dim: u32,
    pub sigma_sq: u32,
    pub med_nn: u32,
}

/// Bytes of the header.
pub const HEADER_SIZE: usize = 32;

/// Bytes of the fixed part of an index entry.
pub const ENTRY_SIZE: usize = 32;

/// The bit that tells an indexed file.
pub const INDEXED_BIT: u32 = 0x8000_0000;

impl ImageModel {
    pub open spec fn row(&self) -> ModelRow {
        ModelRow {
            weights: self.weights@,
            ids: Seq::new(self.centroids@.len(), |i: int| self.centroids@[i].0),
            vecs: Seq::new(self.centroids@.len(), |i: int| self.centroids@[i].1@),
            sigma_sq: self.sigma_sq,
            med_nn: self.med_nn,
        }
    }
}

/// The rows of a table of models.
pub open spec fn rows_of(v: Seq<ImageModel>) -> Seq<ModelRow> {
    Seq::new(v.len(), |i: int| v[i].row())
}

impl ModelRow {
    /// The length of the centroids; zero where there are none.
    pub open spec fn dim(self) -> int {
        if self.vecs.len() == 0 {
            0
        } else {
            self.vecs[0].len() as int
        }
    }

    /// Each glyph has a centroid, and all centroids have one length.
    pub open spec fn wf(self) -> bool {
        &&& self.ids.len() == self.vecs.len()
        &&& forall|i: int| 0 <= i < self.vecs.len() ==> (#[trigger] self.vecs[i]).len() == self.dim()
    }
}

// --- The bytes ---

/// Number sequences one after the other.
pub open spec fn enc_vecs(v: Seq<Seq<u32>>) -> Seq<u8>
    decreases v.len(),
{
    if v.len() == 0 {
        Seq::empty()
    } else {
        enc_vecs(v.drop_last()) + enc32s(v.last())
    }
}

/// What a row takes up in the data section.
pub open spec fn enc_row(r: ModelRow) -> Seq<u8> {
    enc32s(r.weights) + (enc32s(r.ids) + enc_vecs(r.vecs))
}

/// The data section of the first `k` rows.
pub open spec fn enc_data(rows: Seq<ModelRow>, k: int) -> Seq<u8>
    decreases k,
{
    if k <= 0 {
        Seq::empty()
    } else {
        enc_data(rows, k - 1) + enc_row(rows[k - 1])
    }
}

/// Where a row stands whose data begin at `off`.
pub open spec fn entry_of(r: ModelRow, off: int) -> IndexedEntry {
    IndexedEntry {
        n_weights: r.weights.len() as u32,
        weights_off: off as u32,
        n_centroids: r.ids.len() as u32,
        gids_off: (off + 4 * r.weights.len()) as u32,
        vecs_off: (off + 4 * r.weights.len() + 4 * r.ids.len()) as u32,
        vec_dim: r.dim() as u32,
        sigma_sq: r.sigma_sq,
        med_nn: r.med_nn,
    }
}

pub open spec fn entry_numbers(e: IndexedEntry) -> Seq<u32> {
    seq![
        e.n_weights,
        e.weights_off,
        e.n_centroids,
        e.gids_off,
        e.vecs_off,
        e.vec_dim,
        e.sigma_sq,
        e.med_nn,
    ]
}

/// The code points of a sequence.
pub open spec fn points(s: Seq<char>) -> Seq<u32> {
    Seq::new(s.len(), |i: int| s[i] as u32)
}

pub open spec fn enc_key(s: Seq<char>) -> Seq<u8> {
    enc32(s.len() as u32) + enc32s(points(s))
}

/// The index section of the first `k` rows.
pub open spec fn enc_index(keys: Seq<Seq<char>>, rows: Seq<ModelRow>, k: int) -> Seq<u8>
    decreases k,
{
    if k <= 0 {
        Seq::empty()
    } else {
        enc_index(keys, rows, k - 1) + (enc_key(keys[k - 1]) + enc32s(
            entry_numbers(entry_of(rows[k - 1], enc_data(rows, k - 1).len() as int)),
        ))
    }
}

/// A model as bytes: the header, the index section and the data section. There are no
/// font names.
#[verifier::opaque]
pub open spec fn enc_model(
    magic: Seq<u8>,
    version: u32,
    hash: u64,
    keys: Seq<Seq<char>>,
    rows: Seq<ModelRow>,
) -> Seq<u8> {
    let n = rows.len() as int;
    let index = enc_index(keys, rows, n);
    magic + (enc32(version | INDEXED_BIT) + (enc64(hash) + (enc32(0) + (enc32(n as u32) + (enc32(
        HEADER_SIZE as u32,
    ) + (enc32((HEADER_SIZE + index.len()) as u32) + (index + enc_data(rows, n))))))))
}

/// Offsets fit in the format's numbers.
pub open spec fn model_fits(keys: Seq<Seq<char>>, rows: Seq<ModelRow>) -> bool {
    &&& HEADER_SIZE + enc_index(keys, rows, rows.len() as int).len() <= u32::MAX
    &&& enc_data(rows, rows.len() as int).len() <= u32::MAX
}

impl NgramModel {
    /// The rows of the models, in the order of the keys.
    pub open spec fn rows(&self) -> Seq<ModelRow> {
        rows_of(self.entries.values@)
    }

    pub open spec fn key_seqs(&self) -> Seq<Seq<char>> {
        views(self.entries.keys@)
    }

    pub open spec fn wf(&self) -> bool {
        &&& self.entries.wf()
        &&& forall|i: int| 0 <= i < self.rows().len() ==> (#[trigger] self.rows()[i]).wf()
    }
}

// --- Sizes ---

pub proof fn lemma_vecs_len(v: Seq<Seq<u32>>, d: int)
    requires
        forall|i: int| 0 <= i < v.len() ==> (#[trigger] v[i]).len() == d,
    ensures
        enc_vecs(v).len() == 4 * (v.len() * d),
    decreases v.len(),
{
    if v.len() > 0 {
        let w = v.drop_last();
        assert forall|i: int| 0 <= i < w.len() implies (#[trigger] w[i]).len() == d by {
            assert(w[i] == v[i]);
        }
        lemma_vecs_len(w, d);
        lemma_enc32s_len(v.last());
        assert(v.last().len() == d);
        assert(v.len() * d == w.len() * d + d) by (nonlinear_arith)
            requires
                v.len() == w.len() + 1,
        ;
    } else {
        assert(0 * d == 0);
    }
}

pub proof fn lemma_row_len(r: ModelRow)
    requires
        r.wf(),
    ensures
        enc_row(r).len() == 4 * r.weights.len() + 4 * r.ids.len() + 4 * (r.vecs.len() * r.dim()),
        r.dim() >= 0,
        r.vecs.len() * r.dim() >= 0,
        r.dim() <= r.vecs.len() * r.dim(),
{
    lemma_enc32s_len(r.weights);
    lemma_enc32s_len(r.ids);
    lemma_vecs_len(r.vecs, r.dim());
    let n = r.vecs.len() as int;
    let d = r.dim();
    assert(n * d >= 0) by (nonlinear_arith)
        requires
            n >= 0,
            d >= 0,
    ;
    if n > 0 {
        assert(d <= n * d) by (nonlinear_arith)
            requires
                n >= 1,
                d >= 0,
        ;
    }
}

pub proof fn lemma_data_monotone(rows: Seq<ModelRow>, i: int, j: int)
    requires
        i <= j,
    ensures
        enc_data(rows, i).len() <= enc_data(rows, j).len(),
    decreases j - i,
{
    if i < j {
        lemma_data_monotone(rows, i, j - 1);
    }
}

pub proof fn lemma_index_monotone(keys: Seq<Seq<char>>, rows: Seq<ModelRow>, i: int, j: int)
    requires
        i <= j,
    ensures
        enc_index(keys, rows, i).len() <= enc_index(keys, rows, j).len(),
    decreases j - i,
{
    if i < j {
        lemma_index_monotone(keys, rows, i, j - 1);
    }
}

/// An index section has room for at least one byte for each row.
pub proof fn lemma_index_count(keys: Seq<Seq<char>>, rows: Seq<ModelRow>, k: int)
    requires
        0 <= k,
    ensures
        k <= enc_index(keys, rows, k).len(),
    decreases k,
{
    if k > 0 {
        lemma_index_count(keys, rows, k - 1);
        lemma_enc32s_len(
            entry_numbers(entry_of(rows[k - 1], enc_data(rows, k - 1).len() as int)),
        );
    }
}

// --- Writing ---

pub fn code_points(s: &Vec<char>) -> (r: Vec<u32>)
    ensures
        r@ == points(s@),
{
    let n: usize = s.len();
    let mut r: Vec<u32> = Vec::new();
    for i in 0..n
        invariant
            n == s@.len(),
            r@.len() == i,
            forall|k: int| 0 <= k < i ==> #[trigger] r@[k] == s@[k] as u32,
    {
        r.push(crate::text::char_at(s, i) as u32);
    }
    assert(r@ =~= points(s@));
    r
}

fn put_centroid_ids(out: &mut Vec<u8>, cm: &ImageModel)
    ensures
        final(out)@ == old(out)@ + enc32s(cm.row().ids),
{
    let ghost before = out@;
    let ghost ids = cm.row().ids;
    let n: usize = cm.centroids.len();
    assert(before + enc32s(ids.take(0)) =~= before);
    for i in 0..n
        invariant
            n == cm.centroids@.len(),
            ids == cm.row().ids,
            out@ == before + enc32s(ids.take(i as int)),
    {
        put32(out, cm.centroids[i].0);
        assert(ids.take(i + 1).drop_last() =~= ids.take(i as int));
        assert(out@ =~= before + enc32s(ids.take(i + 1)));
    }
    assert(ids.take(n as int) =~= ids);
}

fn put_centroid_vecs(out: &mut Vec<u8>, cm: &ImageModel)
    ensures
        final(out)@ == old(out)@ + enc_vecs(cm.row().vecs),
{
    let ghost before = out@;
    let ghost vecs = cm.row().vecs;
    let n: usize = cm.centroids.len();
    assert(before + enc_vecs(vecs.take(0)) =~= before);
    for i in 0..n
        invariant
            n == cm.centroids@.len(),
            vecs == cm.row().vecs,
            out@ == before + enc_vecs(vecs.take(i as int)),
    {
        put32s(out, &cm.centroids[i].1);
        assert(vecs.take(i + 1).drop_last() =~= vecs.take(i as int));
        assert(out@ =~= before + enc_vecs(vecs.take(i + 1)));
    }
    assert(vecs.take(n as int) =~= vecs);
}

/// Appends what a model takes up in the data section.
fn put_row(out: &mut Vec<u8>, cm: &ImageModel)
    ensures
        final(out)@ == old(out)@ + enc_row(cm.row()),
{
    let ghost before = out@;
    put32s(out, &cm.weights);
    put_centroid_ids(out, cm);
    put_centroid_vecs(out, cm);
    assert(out@ =~= before + enc_row(cm.row()));
}

/// The fixed part of the index entry of a model whose data begin at `off`.
fn entry_for(cm: &ImageModel, off: usize) -> (e: IndexedEntry)
    requires
        cm.row().wf(),
        off + enc_row(cm.row()).len() <= u32::MAX,
    ensures
        e == entry_of(cm.row(), off as int),
{
    proof {
        lemma_row_len(cm.row());
    }
    let n_weights: usize = cm.weights.len();
    let n_centroids: usize = cm.centroids.len();
    let dim: usize = if n_centroids == 0 {
        0
    } else {
        cm.centroids[0].1.len()
    };
    IndexedEntry {
        n_weights: n_weights as u32,
        weights_off: off as u32,
        n_centroids: n_centroids as u32,
        gids_off: (off + 4 * n_weights) as u32,
        vecs_off: (off + 4 * n_weights + 4 * n_centroids) as u32,
        vec_dim: dim as u32,
        sigma_sq: cm.sigma_sq,
        med_nn: cm.med_nn,
    }
}

fn put_entry(out: &mut Vec<u8>, e: &IndexedEntry)
    ensures
        final(out)@ == old(out)@ + enc32s(entry_numbers(*e)),
{
    let mut v: Vec<u32> = Vec::new();
    v.push(e.n_weights);
    v.push(e.weights_off);
    v.push(e.n_centroids);
    v.push(e.gids_off);
    v.push(e.vecs_off);
    v.push(e.vec_dim);
    v.push(e.sigma_sq);
    v.push(e.med_nn);
    assert(v@ =~= entry_numbers(*e));
    put32s(out, &v);
}

fn put_keyed_entry(out: &mut Vec<u8>, key: &Vec<char>, e: &IndexedEntry)
    requires
        key@.len() <= u32::MAX,
    ensures
        final(out)@ == old(out)@ + (enc_key(key@) + enc32s(entry_numbers(*e))),
{
    let ghost b0 = out@;
    put32(out, key.len() as u32);
    let cps: Vec<u32> = code_points(key);
    put32s(out, &cps);
    proof {
        lemma_regroup(b0, enc32(key@.len() as u32), enc32s(points(key@)));
        lemma_regroup(b0, enc_key(key@), enc32s(entry_numbers(*e)));
    }
    put_entry(out, e);
}

impl NgramModel {
    pub fn new(catalog_hash: u64) -> (m: NgramModel)
        ensures
            m.wf(),
            m.catalog_hash == catalog_hash,
            m.entries@ == Map::<Seq<char>, ImageModel>::empty(),
    {
        let m = NgramModel { entries: SeqMap::new(), catalog_hash };
        assert(m.rows().len() == 0);
        m
    }

    /// The model as bytes, with its sequences in ascending order.
    #[verifier::rlimit(40)]
    pub fn write_bin(&self, magic: &[u8; 4], version: u32) -> (out: Vec<u8>)
        requires
            self.wf(),
            model_fits(self.key_seqs(), self.rows()),
        ensures
            out@ == enc_model(magic@, version, self.catalog_hash, self.key_seqs(), self.rows()),
    {
        let ghost keys = self.key_seqs();
        let ghost rows = self.rows();
        let n: usize = self.entries.values.len();
        let mut index: Vec<u8> = Vec::new();
        let mut data: Vec<u8> = Vec::new();
        assert(index@ =~= enc_index(keys, rows, 0));
        assert(data@ =~= enc_data(rows, 0));
        for i in 0..n
            invariant
                self.wf(),
                keys == self.key_seqs(),
                rows == self.rows(),
                n == rows.len(),
                n == keys.len(),
                model_fits(keys, rows),
                index@ == enc_index(keys, rows, i as int),
                data@ == enc_data(rows, i as int),
        {
            let cm = &self.entries.values[i];
            assert(rows[i as int] == cm.row());
            assert(keys[i as int] == self.entries.keys@[i as int]@);
            proof {
                lemma_data_monotone(rows, i + 1, n as int);
                lemma_index_monotone(keys, rows, i + 1, n as int);
                lemma_enc32s_len(points(keys[i as int]));
            }
            let e = entry_for(cm, data.len());
            put_keyed_entry(&mut index, &self.entries.keys[i], &e);
            put_row(&mut data, cm);
            assert(index@ == enc_index(keys, rows, i + 1));
            assert(data@ == enc_data(rows, i + 1));
        }
        proof {
            lemma_index_count(keys, rows, n as int);
        }
        let mut out: Vec<u8> = Vec::new();
        put_bytes(&mut out, magic.as_slice());
        put32(&mut out, version | INDEXED_BIT);
        put64(&mut out, self.catalog_hash);
        put32(&mut out, 0);
        put32(&mut out, n as u32);
        put32(&mut out, HEADER_SIZE as u32);
        put32(&mut out, (HEADER_SIZE + index.len()) as u32);
        put_bytes(&mut out, index.as_slice());
        put_bytes(&mut out, data.as_slice());
        proof {
            reveal(enc_model);
        }
        assert(out@ =~= enc_model(magic@, version, self.catalog_hash, keys, rows));
        out
    }
}

/// How many bytes a row takes up, unless these are too many for the format.
fn row_size(cm: &ImageModel) -> (r: Option<u64>)
    requires
        cm.row().wf(),
    ensures
        r is Some <==> enc_row(cm.row()).len() <= u32::MAX,
        r is Some ==> r->0 == enc_row(cm.row()).len(),
{
    let ghost row = cm.row();
    proof {
        lemma_row_len(row);
    }
    let limit: usize = 0x4000_0000;
    let n: usize = cm.centroids.len();
    let w: usize = cm.weights.len();
    if n >= limit || w >= limit {
        return None;
    }
    let d: usize = if n > 0 {
        cm.centroids[0].1.len()
    } else {
        0
    };
    assert(d == row.dim()) by {
        if n > 0 {
            assert(row.vecs[0] == cm.centroids@[0].1@);
        }
    }
    if d >= limit {
        return None;
    }
    assert(0 <= n * d <= 0x4000_0000 * 0x4000_0000) by (nonlinear_arith)
        requires
            0 <= n <= 0x4000_0000,
            0 <= d <= 0x4000_0000,
    ;
    let size: u64 = 4 * (w as u64) + 4 * (n as u64) + 4 * (n as u64 * d as u64);
    if size > 0xffff_ffff {
        None
    } else {
        Some(size)
    }
}

impl NgramModel {
    /// Whether the offsets fit in the format's numbers.
    pub fn fits(&self) -> (r: bool)
        requires
            self.wf(),
        ensures
            r == model_fits(self.key_seqs(), self.rows()),
    {
        let ghost keys = self.key_seqs();
        let ghost rows = self.rows();
        let n: usize = self.entries.values.len();
        let mut index: u64 = 32;
        let mut data: u64 = 0;
        for i in 0..n
            invariant
                self.wf(),
                keys == self.key_seqs(),
                rows == self.rows(),
                n == rows.len(),
                n == keys.len(),
                index == HEADER_SIZE + enc_index(keys, rows, i as int).len(),
                data == enc_data(rows, i as int).len(),
                index <= u32::MAX,
                data <= u32::MAX,
        {
            let cm = &self.entries.values[i];
            let len: usize = self.entries.keys[i].len();
            proof {
                assert(rows[i as int] == cm.row());
                assert(keys[i as int] == self.entries.keys@[i as int]@);
                lemma_data_monotone(rows, i + 1, n as int);
                lemma_index_monotone(keys, rows, i + 1, n as int);
                lemma_enc32s_len(points(keys[i as int]));
                lemma_enc32s_len(
                    entry_numbers(entry_of(rows[i as int], enc_data(rows, i as int).len() as int)),
                );
            }
            if len >= 0x4000_0000 {
                return false;
            }
            let size: u64 = match row_size(cm) {
                Some(size) => size,
                None => {
                    return false;
                },
            };
            index = index + 4 + 4 * (len as u64) + 32;
            data = data + size;
            if index > 0xffff_ffff || data > 0xffff_ffff {
                return false;
            }
        }
        true
    }
}

/// The header of a model that is written: the mark, the version with the mark of an index, the
/// hash, no names, how many sequences there are, and where the index and the numbers begin.
pub proof fn law_model_written(
    magic: Seq<u8>,
    version: u32,
    hash: u64,
    keys: Seq<Seq<char>>,
    rows: Seq<ModelRow>,
)
    requires
        magic.len() == 4,
        rows.len() <= u32::MAX,
        model_fits(keys, rows),
    ensures
        ({
            let out = enc_model(magic, version, hash, keys, rows);
            &&& out.take(4) == magic
            &&& crate::bytes::get32(out, 4) == version | 0x8000_0000
            &&& crate::bytes::get64(out, 8) == hash
            &&& crate::bytes::get32(out, 16) == 0
            &&& crate::bytes::get32(out, 20) == rows.len()
            &&& crate::bytes::get32(out, 24) == 32
            &&& crate::bytes::get32(out, 28) == 32 + enc_index(keys, rows, rows.len() as int).len()
        }),
{
    reveal(enc_model);
    let n = rows.len() as int;
    let index = enc_index(keys, rows, n);
    let out = enc_model(magic, version, hash, keys, rows);
    assert(out.take(4) =~= magic);
    assert(out.subrange(4, 8) =~= enc32(version | INDEXED_BIT));
    crate::bytes::lemma_get32(out, 4, version | INDEXED_BIT);
    assert(out.subrange(8, 16) =~= enc64(hash));
    crate::bytes::lemma_get64(out, 8, hash);
    assert(out.subrange(16, 20) =~= enc32(0));
    crate::bytes::lemma_get32(out, 16, 0);
    assert(out.subrange(20, 24) =~= enc32(n as u32));
    crate::bytes::lemma_get32(out, 20, n as u32);
    assert(out.subrange(24, 28) =~= enc32(32));
    crate::bytes::lemma_get32(out, 24, 32);
    let at = (HEADER_SIZE + index.len()) as u32;
    assert(out.subrange(28, 32) =~= enc32(at));
    crate::bytes::lemma_get32(out, 28, at);
}

} // verus!
