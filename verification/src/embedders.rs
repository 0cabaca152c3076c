//! What the weights of a model file are used as: projections, nets, transforms or scores, one
//! for each sequence of the model.

use vstd::prelude::*;
use vstd::string::*;
use crate::features::FEAT_LEN;
use crate::mapped_model::{
    entry_inside, law_model_round_trip, parse_model, MmapNgramModel, ModelError,
};
use crate::mlp::{debug_chars, shown};
use crate::ngram_model::{enc_model, model_fits, ModelRow};
use crate::sorting::strictly_ascending;
use crate::text::{copy_of, decimal, slice_of, text_of, to_decimal, to_wide_decimal};
use crate::training::{
    dims_of, is_lda_row, lemma_lda_dims, padded_weights, projection_of, GlyphNet, ProjectionError,
    PARAMS_PER_CHAR,
};
use crate::weights::{freshness_of, law_version_mark, ClassifierKind, Freshness};

verus! {

/// A projection: how many dimensions it has, and the bit patterns of its rows.
pub type Projection = (usize, Vec<u32>);

/// What is wrong with the weights of a sequence.
#[derive(Clone, Copy, Debug, PartialEq, Eq, Structural)]
pub enum WeightFault {
    /// They are no projection.
    Projection(ProjectionError),
    /// There are as many as are given, which is not what a net takes.
    Params(usize),
}

/// A model file that cannot be used.
pub enum EmbedderError {
    /// It cannot be read.
    Model(ModelError),
    /// The weights of an entry lie behind its end.
    OutOfFile,
    /// The weights of a sequence are wrong.
    Weights { seq: Vec<char>, fault: WeightFault },
}

/// The weights of the `i`-th sequence.
pub open spec fn weights_at(m: MmapNgramModel, i: int) -> Seq<u32> {
    m.row(m.entries.keys@[i]@).weights
}

/// The fault of weights as a projection.
pub open spec fn projection_fault(w: Seq<u32>) -> Option<ProjectionError> {
    if w.len() == 0 {
        Some(ProjectionError::Empty)
    } else if w.len() - 1 != dims_of(w) * FEAT_LEN {
        Some(ProjectionError::Length { found: (w.len() - 1) as usize, out_dim: dims_of(w) as usize })
    } else {
        None
    }
}

/// The projection that weights are.
pub open spec fn is_projection(w: Seq<u32>, p: Projection) -> bool {
    &&& projection_fault(w) is None
    &&& p.0 == dims_of(w)
    &&& p.1@ == w.skip(1)
}

/// The projection of every sequence.
pub open spec fn are_projections(m: MmapNgramModel, v: Seq<Projection>) -> bool {
    &&& v.len() == m.entries.keys@.len()
    &&& forall|i: int|
        0 <= i < v.len() ==> is_projection(weights_at(m, i), #[trigger] v[i])
}

/// The weights of a sequence of the model have this fault as a projection.
pub open spec fn has_bad_projection(m: MmapNgramModel, seq: Seq<char>, f: WeightFault) -> bool {
    exists|i: int|
        0 <= i < m.entries.keys@.len() && (#[trigger] m.entries.keys@[i])@ == seq
            && projection_fault(weights_at(m, i)) is Some && f == WeightFault::Projection(
            projection_fault(weights_at(m, i))->0,
        )
}

/// The net of every sequence.
pub open spec fn are_nets(m: MmapNgramModel, v: Seq<GlyphNet>) -> bool {
    &&& v.len() == m.entries.keys@.len()
    &&& forall|i: int|
        0 <= i < v.len() ==> (#[trigger] v[i]).wf() && v[i].flat() == weights_at(m, i)
}

/// The weights of a sequence of the model are too many or too few for a net.
pub open spec fn has_bad_net(m: MmapNgramModel, seq: Seq<char>, f: WeightFault) -> bool {
    exists|i: int|
        0 <= i < m.entries.keys@.len() && (#[trigger] m.entries.keys@[i])@ == seq && weights_at(
            m,
            i,
        ).len() != PARAMS_PER_CHAR && f == WeightFault::Params(weights_at(m, i).len() as usize)
}

/// The weights of every sequence as they are.
pub open spec fn are_transforms(m: MmapNgramModel, v: Seq<Vec<u32>>) -> bool {
    &&& v.len() == m.entries.keys@.len()
    &&& forall|i: int| 0 <= i < v.len() ==> (#[trigger] v[i])@ == weights_at(m, i)
}

/// Weights as long as a feature vector.
pub open spec fn padded_to_features(w: Seq<u32>) -> Seq<u32> {
    Seq::new(
        FEAT_LEN as nat,
        |i: int|
            if i < w.len() {
                w[i]
            } else {
                0u32
            },
    )
}

/// The scores of every sequence, as long as a feature vector.
pub open spec fn are_scores(m: MmapNgramModel, v: Seq<Vec<u32>>) -> bool {
    &&& v.len() == m.entries.keys@.len()
    &&& forall|i: int|
        0 <= i < v.len() ==> (#[trigger] v[i])@ == padded_to_features(weights_at(m, i))
}

fn weights_of(m: &MmapNgramModel, i: usize) -> (w: Vec<u32>)
    requires
        m.weighted(),
        i < m.entries.keys@.len(),
    ensures
        w@ == weights_at(*m, i as int),
{
    proof {
        m.entries.lemma_entry(i as int);
    }
    match m.weights(&m.entries.keys[i]) {
        Some(w) => w,
        None => Vec::new(),
    }
}

fn key_copy(m: &MmapNgramModel, i: usize) -> (k: Vec<char>)
    requires
        i < m.entries.keys@.len(),
    ensures
        k@ == m.entries.keys@[i as int]@,
{
    let k: Vec<char> = slice_of(&m.entries.keys[i], 0, m.entries.keys[i].len());
    assert(k@ =~= m.entries.keys@[i as int]@);
    k
}

/// Takes the projections out of a model.
pub fn projections_of(m: &MmapNgramModel) -> (r: Result<Vec<Projection>, EmbedderError>)
    requires
        m.weighted(),
    ensures
        match r {
            Ok(v) => are_projections(*m, v@),
            Err(e) => e matches EmbedderError::Weights { seq, fault } && has_bad_projection(
                *m,
                seq@,
                fault,
            ),
        },
{
    let n: usize = m.entries.keys.len();
    let mut out: Vec<Projection> = Vec::new();
    for i in 0..n
        invariant
            m.weighted(),
            n == m.entries.keys@.len(),
            out@.len() == i,
            forall|k: int|
                0 <= k < i ==> is_projection(weights_at(*m, k), #[trigger] out@[k]),
    {
        let w: Vec<u32> = weights_of(m, i);
        match projection_of(&w) {
            Ok(p) => {
                assert(is_projection(w@, p));
                out.push(p);
            },
            Err(e) => {
                let seq: Vec<char> = key_copy(m, i);
                let fault: WeightFault = WeightFault::Projection(e);
                assert(m.entries.keys@[i as int]@ == seq@);
                assert(has_bad_projection(*m, seq@, fault));
                return Err(EmbedderError::Weights { seq, fault });
            },
        }
    }
    Ok(out)
}

/// Takes the nets out of a model.
pub fn nets_of(m: &MmapNgramModel) -> (r: Result<Vec<GlyphNet>, EmbedderError>)
    requires
        m.weighted(),
    ensures
        match r {
            Ok(v) => are_nets(*m, v@),
            Err(e) => e matches EmbedderError::Weights { seq, fault } && has_bad_net(
                *m,
                seq@,
                fault,
            ),
        },
{
    let n: usize = m.entries.keys.len();
    let mut out: Vec<GlyphNet> = Vec::new();
    for i in 0..n
        invariant
            m.weighted(),
            n == m.entries.keys@.len(),
            out@.len() == i,
            forall|k: int|
                0 <= k < i ==> (#[trigger] out@[k]).wf() && out@[k].flat() == weights_at(*m, k),
    {
        let w: Vec<u32> = weights_of(m, i);
        match GlyphNet::from_weights(&w) {
            Some(net) => {
                out.push(net);
            },
            None => {
                let seq: Vec<char> = key_copy(m, i);
                let fault: WeightFault = WeightFault::Params(w.len());
                assert(m.entries.keys@[i as int]@ == seq@);
                assert(has_bad_net(*m, seq@, fault));
                return Err(EmbedderError::Weights { seq, fault });
            },
        }
    }
    Ok(out)
}

/// Takes the transforms out of a model.
pub fn transforms_of(m: &MmapNgramModel) -> (v: Vec<Vec<u32>>)
    requires
        m.weighted(),
    ensures
        are_transforms(*m, v@),
{
    let n: usize = m.entries.keys.len();
    let mut out: Vec<Vec<u32>> = Vec::new();
    for i in 0..n
        invariant
            m.weighted(),
            n == m.entries.keys@.len(),
            out@.len() == i,
            forall|k: int| 0 <= k < i ==> (#[trigger] out@[k])@ == weights_at(*m, k),
    {
        out.push(weights_of(m, i));
    }
    out
}

/// Takes the scores out of a model.
pub fn scores_of(m: &MmapNgramModel) -> (v: Vec<Vec<u32>>)
    requires
        m.weighted(),
    ensures
        are_scores(*m, v@),
{
    let n: usize = m.entries.keys.len();
    let mut out: Vec<Vec<u32>> = Vec::new();
    for i in 0..n
        invariant
            m.weighted(),
            n == m.entries.keys@.len(),
            out@.len() == i,
            forall|k: int|
                0 <= k < i ==> (#[trigger] out@[k])@ == padded_to_features(weights_at(*m, k)),
    {
        let w: Vec<u32> = weights_of(m, i);
        let p: Vec<u32> = padded_weights(&w);
        assert(p@ =~= padded_to_features(w@));
        out.push(p);
    }
    out
}

// --- Whole files ---

/// A model was read from the bytes of a file.
pub open spec fn is_model(m: MmapNgramModel, data: Seq<u8>, mark: Seq<u8>) -> bool {
    &&& m.weighted()
    &&& m.data@ == data
    &&& parse_model(data, mark) == Ok::<_, ModelError>(m.parsed())
}

/// The error of a file that holds no model of this kind, or one whose weights lie behind its end.
/// Where the glyphs of a sequence lie behind the end, that shows when they are asked for.
pub open spec fn is_file_error(data: Seq<u8>, mark: Seq<u8>, e: EmbedderError) -> bool {
    match e {
        EmbedderError::Model(f) => parse_model(data, mark) is Err && parse_model(data, mark)->Err_0
            == f,
        EmbedderError::OutOfFile => exists|m: MmapNgramModel|
            #![trigger m.parsed()]
            m.wf() && !m.weighted() && m.data@ == data && parse_model(data, mark) == Ok::<
                _,
                ModelError,
            >(m.parsed()),
        EmbedderError::Weights { .. } => false,
    }
}

fn load_kind(data: Vec<u8>, kind: ClassifierKind) -> (r: Result<MmapNgramModel, EmbedderError>)
    ensures
        match r {
            Ok(m) => is_model(m, data@, kind.magic_bytes()),
            Err(e) => is_file_error(data@, kind.magic_bytes(), e),
        },
{
    let magic: [u8; 4] = kind.magic();
    assert(magic@ =~= kind.magic_bytes());
    match MmapNgramModel::load_indexed(data, &magic) {
        Err(e) => Err(EmbedderError::Model(e)),
        Ok(m) => {
            if m.has_weights() {
                Ok(m)
            } else {
                assert(m.wf() && !m.weighted());
                let ghost p = m.parsed();
                Err(EmbedderError::OutOfFile)
            }
        },
    }
}

/// What a file of projections that begins with the mark is read as.
pub open spec fn are_projections_of(
    data: Seq<u8>,
    mark: Seq<u8>,
    r: Result<(MmapNgramModel, Vec<Projection>), EmbedderError>,
) -> bool {
    match r {
        Ok(p) => is_model(p.0, data, mark) && are_projections(p.0, p.1@),
        Err(e) => is_file_error(data, mark, e) || (e matches EmbedderError::Weights { seq, fault }
            && exists|m: MmapNgramModel| #[trigger]
            is_model(m, data, mark) && has_bad_projection(m, seq@, fault)),
    }
}

/// What the bytes of a file of projections are read as.
pub open spec fn is_lda(
    data: Seq<u8>,
    r: Result<(MmapNgramModel, Vec<Projection>), EmbedderError>,
) -> bool {
    are_projections_of(data, ClassifierKind::Lda.magic_bytes(), r)
}

/// Reads a file of projections.
pub fn load_lda(data: Vec<u8>) -> (r: Result<(MmapNgramModel, Vec<Projection>), EmbedderError>)
    ensures
        is_lda(data@, r),
{
    let m: MmapNgramModel = match load_kind(data, ClassifierKind::Lda) {
        Ok(m) => m,
        Err(e) => {
            return Err(e);
        },
    };
    match projections_of(&m) {
        Ok(v) => Ok((m, v)),
        Err(e) => Err(e),
    }
}

/// Reads a file of nets.
pub fn load_triplet(data: Vec<u8>) -> (r: Result<(MmapNgramModel, Vec<GlyphNet>), EmbedderError>)
    ensures
        match r {
            Ok(p) => is_model(p.0, data@, ClassifierKind::Triplet.magic_bytes()) && are_nets(
                p.0,
                p.1@,
            ),
            Err(e) => is_file_error(data@, ClassifierKind::Triplet.magic_bytes(), e) || (
            e matches EmbedderError::Weights { seq, fault } && exists|m: MmapNgramModel|
                #[trigger] is_model(m, data@, ClassifierKind::Triplet.magic_bytes())
                    && has_bad_net(m, seq@, fault)),
        },
{
    let m: MmapNgramModel = match load_kind(data, ClassifierKind::Triplet) {
        Ok(m) => m,
        Err(e) => {
            return Err(e);
        },
    };
    match nets_of(&m) {
        Ok(v) => Ok((m, v)),
        Err(e) => Err(e),
    }
}

/// Reads a file of transforms.
pub fn load_mahalanobis(data: Vec<u8>) -> (r: Result<
    (MmapNgramModel, Vec<Vec<u32>>),
    EmbedderError,
>)
    ensures
        match r {
            Ok(p) => is_model(p.0, data@, ClassifierKind::Mahalanobis.magic_bytes())
                && are_transforms(p.0, p.1@),
            Err(e) => is_file_error(data@, ClassifierKind::Mahalanobis.magic_bytes(), e),
        },
{
    match load_kind(data, ClassifierKind::Mahalanobis) {
        Ok(m) => {
            let v: Vec<Vec<u32>> = transforms_of(&m);
            Ok((m, v))
        },
        Err(e) => Err(e),
    }
}

/// Reads a file of scores.
pub fn load_fisher(data: Vec<u8>) -> (r: Result<(MmapNgramModel, Vec<Vec<u32>>), EmbedderError>)
    ensures
        match r {
            Ok(p) => is_model(p.0, data@, ClassifierKind::Fisher.magic_bytes()) && are_scores(
                p.0,
                p.1@,
            ),
            Err(e) => is_file_error(data@, ClassifierKind::Fisher.magic_bytes(), e),
        },
{
    match load_kind(data, ClassifierKind::Fisher) {
        Ok(m) => {
            let v: Vec<Vec<u32>> = scores_of(&m);
            Ok((m, v))
        },
        Err(e) => Err(e),
    }
}

// --- Messages ---

impl EmbedderError {
    /// The message of an error.
    pub open spec fn text(self) -> Seq<char> {
        match self {
            EmbedderError::Model(e) => e.text(),
            EmbedderError::OutOfFile => "model data out of bounds"@,
            EmbedderError::Weights { seq, fault } => match fault {
                WeightFault::Projection(ProjectionError::Empty) => "LDA seq '"@ + shown(seq@)
                    + "': empty weights"@,
                WeightFault::Projection(ProjectionError::Length { found, out_dim }) => "LDA seq '"@
                    + shown(seq@) + "': proj len "@ + decimal(found as nat) + " != "@ + decimal(
                    out_dim as nat,
                ) + " × "@ + decimal(FEAT_LEN as nat) + " = "@ + decimal(
                    (out_dim * FEAT_LEN) as nat,
                ),
                WeightFault::Params(n) => "Triplet seq '"@ + shown(seq@) + "': expected "@
                    + decimal(PARAMS_PER_CHAR as nat) + " params, got "@ + decimal(n as nat),
            },
        }
    }

    /// The message of an error.
    pub fn message(&self) -> (r: String)
        ensures
            r@ == self.text(),
    {
        match self {
            EmbedderError::Model(e) => e.message(),
            EmbedderError::OutOfFile => copy_of("model data out of bounds"),
            EmbedderError::Weights { seq, fault } => match fault {
                WeightFault::Projection(ProjectionError::Empty) => {
                    let mut s: String = copy_of("LDA seq '");
                    s.append(debug_chars(seq).as_str());
                    s.append("': empty weights");
                    s
                },
                WeightFault::Projection(ProjectionError::Length { found, out_dim }) => {
                    let mut s: String = copy_of("LDA seq '");
                    s.append(debug_chars(seq).as_str());
                    s.append("': proj len ");
                    s.append(text_of(&to_decimal(*found as u64)).as_str());
                    s.append(" != ");
                    s.append(text_of(&to_decimal(*out_dim as u64)).as_str());
                    s.append(" × ");
                    s.append(text_of(&to_decimal(FEAT_LEN as u64)).as_str());
                    s.append(" = ");
                    assert(FEAT_LEN == 63);
                    let all: u128 = 63 * (*out_dim as u128);
                    s.append(text_of(&to_wide_decimal(all)).as_str());
                    s
                },
                WeightFault::Params(n) => {
                    let mut s: String = copy_of("Triplet seq '");
                    s.append(debug_chars(seq).as_str());
                    s.append("': expected ");
                    s.append(text_of(&to_decimal(PARAMS_PER_CHAR as u64)).as_str());
                    s.append(" params, got ");
                    s.append(text_of(&to_decimal(*n as u64)).as_str());
                    s
                },
            },
        }
    }
}

/// A model that was read from a written file has its hash, sequences and rows, and its entries
/// point into the file.
proof fn lemma_written_model(
    m: MmapNgramModel,
    magic: Seq<u8>,
    version: u32,
    hash: u64,
    keys: Seq<Seq<char>>,
    rows: Seq<ModelRow>,
)
    requires
        magic.len() == 4,
        keys.len() == rows.len(),
        strictly_ascending(keys),
        forall|i: int| 0 <= i < rows.len() ==> (#[trigger] rows[i]).wf(),
        model_fits(keys, rows),
        m.wf(),
        m.data@ == enc_model(magic, version, hash, keys, rows),
        parse_model(m.data@, magic) == Ok::<_, ModelError>(m.parsed()),
    ensures
        m.sound(),
        m.catalog_hash == hash,
        forall|s: Seq<char>| #[trigger] m.entries@.dom().contains(s) <==> keys.contains(s),
        forall|j: int| 0 <= j < keys.len() ==> m.row(#[trigger] keys[j]) == rows[j],
{
    law_model_round_trip(magic, version, hash, keys, rows);
    assert forall|k: Seq<char>| #[trigger] m.entries@.dom().contains(k) implies entry_inside(
        m.data@.len() as int,
        m.data_off,
        m.entries@[k],
    ) by {
        assert(keys.contains(k));
        let j = choose|j: int| 0 <= j < keys.len() && keys[j] == k;
        assert(keys[j] == k);
    }
}

/// The bytes of a file of projections.
pub open spec fn lda_file(hash: u64, keys: Seq<Seq<char>>, rows: Seq<ModelRow>) -> Seq<u8> {
    enc_model(
        ClassifierKind::Lda.magic_bytes(),
        ClassifierKind::Lda.file_version(),
        hash,
        keys,
        rows,
    )
}

/// The entries of a file of projections: in order, and each with a projection to its number of
/// dimensions.
pub open spec fn are_lda_entries(
    keys: Seq<Seq<char>>,
    rows: Seq<ModelRow>,
    dims: Seq<int>,
) -> bool {
    &&& keys.len() == rows.len()
    &&& dims.len() == rows.len()
    &&& strictly_ascending(keys)
    &&& forall|i: int|
        0 <= i < rows.len() ==> 0 <= dims[i] < FEAT_LEN && is_lda_row(#[trigger] rows[i], dims[i])
    &&& model_fits(keys, rows)
}

proof fn lemma_no_bad_projection(
    m: MmapNgramModel,
    magic: Seq<u8>,
    version: u32,
    hash: u64,
    keys: Seq<Seq<char>>,
    rows: Seq<ModelRow>,
    dims: Seq<int>,
)
    requires
        magic.len() == 4,
        are_lda_entries(keys, rows, dims),
        is_model(m, enc_model(magic, version, hash, keys, rows), magic),
    ensures
        forall|i: int|
            0 <= i < m.entries.keys@.len() ==> projection_fault(#[trigger] weights_at(m, i)) is None,
{
    lemma_written_model(m, magic, version, hash, keys, rows);
    assert forall|i: int| 0 <= i < m.entries.keys@.len() implies projection_fault(
        #[trigger] weights_at(m, i),
    ) is None by {
        m.entries.lemma_entry(i);
        let s = m.entries.keys@[i]@;
        assert(m.entries@.dom().contains(s));
        let j = choose|j: int| 0 <= j < keys.len() && keys[j] == s;
        assert(m.row(keys[j]) == rows[j]);
        lemma_lda_dims(rows[j], dims[j]);
    }
}

proof fn lemma_no_lda_error(
    magic: Seq<u8>,
    version: u32,
    hash: u64,
    keys: Seq<Seq<char>>,
    rows: Seq<ModelRow>,
    dims: Seq<int>,
    e: EmbedderError,
)
    requires
        magic.len() == 4,
        are_lda_entries(keys, rows, dims),
    ensures
        !are_projections_of(enc_model(magic, version, hash, keys, rows), magic, Err(e)),
{
    let data = enc_model(magic, version, hash, keys, rows);
    if are_projections_of(data, magic, Err(e)) {
        match e {
            EmbedderError::Model(_) => {
                law_model_round_trip(magic, version, hash, keys, rows);
            },
            EmbedderError::OutOfFile => {
                let m = choose|m: MmapNgramModel|
                    #![trigger m.parsed()]
                    m.wf() && !m.weighted() && m.data@ == data && parse_model(data, magic) == Ok::<
                        _,
                        ModelError,
                    >(m.parsed());
                lemma_written_model(m, magic, version, hash, keys, rows);
            },
            EmbedderError::Weights { seq, fault } => {
                let m = choose|m: MmapNgramModel| #[trigger]
                    is_model(m, data, magic) && has_bad_projection(m, seq@, fault);
                lemma_no_bad_projection(m, magic, version, hash, keys, rows, dims);
            },
        }
    }
}

/// The model and the projections that were read are those of the entries.
pub open spec fn are_lda_contents(
    hash: u64,
    keys: Seq<Seq<char>>,
    rows: Seq<ModelRow>,
    dims: Seq<int>,
    m: MmapNgramModel,
    v: Seq<Projection>,
) -> bool {
    &&& m.sound()
    &&& m.catalog_hash == hash
    &&& forall|s: Seq<char>| #[trigger] m.entries@.dom().contains(s) <==> keys.contains(s)
    &&& forall|j: int| 0 <= j < keys.len() ==> m.row(#[trigger] keys[j]) == rows[j]
    &&& v.len() == m.entries.keys@.len()
    &&& forall|i: int, j: int|
        0 <= i < v.len() && 0 <= j < keys.len() && (#[trigger] m.entries.keys@[i])@
            == #[trigger] keys[j] ==> v[i].0 == dims[j] && v[i].1@ == rows[j].weights.skip(1)
}

proof fn lemma_lda_contents(
    magic: Seq<u8>,
    version: u32,
    hash: u64,
    keys: Seq<Seq<char>>,
    rows: Seq<ModelRow>,
    dims: Seq<int>,
    r: Result<(MmapNgramModel, Vec<Projection>), EmbedderError>,
)
    requires
        magic.len() == 4,
        are_lda_entries(keys, rows, dims),
        are_projections_of(enc_model(magic, version, hash, keys, rows), magic, r),
    ensures
        r is Ok,
        are_lda_contents(hash, keys, rows, dims, r->Ok_0.0, r->Ok_0.1@),
{
    match r {
        Err(e) => {
            lemma_no_lda_error(magic, version, hash, keys, rows, dims, e);
        },
        Ok(p) => {
            lemma_written_model(p.0, magic, version, hash, keys, rows);
            assert forall|i: int, j: int|
                0 <= i < p.1@.len() && 0 <= j < keys.len() && (#[trigger] p.0.entries.keys@[i])@
                    == #[trigger] keys[j] implies p.1@[i].0 == dims[j] && p.1@[i].1@
                == rows[j].weights.skip(1) by {
                assert(is_projection(weights_at(p.0, i), p.1@[i]));
                lemma_lda_dims(rows[j], dims[j]);
            }
        },
    }
}

/// A file of entries that were made for projections loads: with the hash of its catalog, one
/// model for each sequence and no other one, the rows that were written, and for each of them a
/// projection to its number of dimensions.
pub proof fn law_lda_file(
    hash: u64,
    keys: Seq<Seq<char>>,
    rows: Seq<ModelRow>,
    dims: Seq<int>,
    r: Result<(MmapNgramModel, Vec<Projection>), EmbedderError>,
)
    requires
        are_lda_entries(keys, rows, dims),
        is_lda(lda_file(hash, keys, rows), r),
    ensures
        r is Ok,
        are_lda_contents(hash, keys, rows, dims, r->Ok_0.0, r->Ok_0.1@),
{
    lemma_lda_contents(
        ClassifierKind::Lda.magic_bytes(),
        ClassifierKind::Lda.file_version(),
        hash,
        keys,
        rows,
        dims,
        r,
    );
}

proof fn lemma_written_header(
    kind: ClassifierKind,
    magic: Seq<u8>,
    version: u32,
    hash: u64,
    keys: Seq<Seq<char>>,
    rows: Seq<ModelRow>,
)
    requires
        magic.len() == 4,
        version == kind.file_version(),
        keys.len() == rows.len(),
        strictly_ascending(keys),
        forall|i: int| 0 <= i < rows.len() ==> (#[trigger] rows[i]).wf(),
        model_fits(keys, rows),
    ensures
        freshness_of(kind, Some(enc_model(magic, version, hash, keys, rows)), Some(hash))
            == Freshness::Good,
{
    law_model_round_trip(magic, version, hash, keys, rows);
    law_version_mark(version);
}

/// A model file that was written is up to date for the catalog whose hash it has.
pub proof fn law_written_fresh(
    kind: ClassifierKind,
    hash: u64,
    keys: Seq<Seq<char>>,
    rows: Seq<ModelRow>,
)
    requires
        keys.len() == rows.len(),
        strictly_ascending(keys),
        forall|i: int| 0 <= i < rows.len() ==> (#[trigger] rows[i]).wf(),
        model_fits(keys, rows),
    ensures
        freshness_of(
            kind,
            Some(enc_model(kind.magic_bytes(), kind.file_version(), hash, keys, rows)),
            Some(hash),
        ) == Freshness::Good,
{
    lemma_written_header(kind, kind.magic_bytes(), kind.file_version(), hash, keys, rows);
}

/// Weights are a projection if the first of them tells the number of dimensions and all the
/// others make as many rows as that, each as long as a feature vector. The projection is what
/// stands behind the first number.
pub proof fn law_projection(w: Seq<u32>, p: Projection)
    ensures
        projection_fault(w) is None <==> w.len() > 0 && w.len() == 1 + dims_of(w) * FEAT_LEN,
        projection_fault(w) == Some(ProjectionError::Empty) <==> w.len() == 0,
        is_projection(w, p) ==> p.1@.len() == p.0 * FEAT_LEN && w == seq![w[0]] + p.1@,
        is_projection(w, p) ==> p.0 == dims_of(w),
{
    if is_projection(w, p) {
        assert(w =~= seq![w[0]] + w.skip(1));
    }
}

/// Scores are as long as a feature vector: the weights as far as they go, then zeros; what is
/// too much is left out.
pub proof fn law_padded_scores(w: Seq<u32>, i: int)
    requires
        0 <= i < FEAT_LEN,
    ensures
        padded_to_features(w).len() == FEAT_LEN,
        i < w.len() ==> padded_to_features(w)[i] == w[i],
        i >= w.len() ==> padded_to_features(w)[i] == 0,
{
}


/// Weights that are refused are those of a sequence of the model. As a projection they are
/// empty, or what follows the first number does not make as many rows as it says; as a net there
/// are not as many as a net takes. The fault tells how many there are.
pub proof fn law_bad_weights(m: MmapNgramModel, seq: Seq<char>, f: WeightFault)
    ensures
        ({
            let w = m.row(seq).weights;
            let known = exists|i: int|
                0 <= i < m.entries.keys@.len() && (#[trigger] m.entries.keys@[i])@ == seq;
            &&& has_bad_projection(m, seq, f) ==> known && (f == WeightFault::Projection(
                ProjectionError::Empty,
            ) <==> w.len() == 0) && (w.len() > 0 ==> w.len() - 1 != dims_of(w) * FEAT_LEN && f
                == WeightFault::Projection(
                ProjectionError::Length {
                    found: (w.len() - 1) as usize,
                    out_dim: dims_of(w) as usize,
                },
            ))
            &&& has_bad_net(m, seq, f) ==> known && w.len() != PARAMS_PER_CHAR && f
                == WeightFault::Params(w.len() as usize)
        }),
{
}


} // verus!
