//! Weights of the per-sequence networks that classify directly, and the bytes that they are
//! stored as.

use vstd::prelude::*;
use vstd::string::*;
use crate::bytes::{
    char_from_code, enc32, enc32s, get32, get32s, is_char_code, lemma_enc32s_len, lemma_get32,
    lemma_get32s, lemma_regroup, lemma_stands_split, put32, put32s, put_bytes, read32, read32s,
    stands_at,
};
use crate::features::FEAT_LEN;
use crate::mapped_model::{magic_of, Magic};
use crate::ngram_model::{code_points, enc_key, points};
use crate::seq_map::SeqMap;
use crate::text::{copy_of, decimal, hex, text_of, to_decimal, to_hex};

verus! {

/// Units of the first hidden layer.
pub const MLP_H1: usize = 256;

/// Units of the second hidden layer.
pub const MLP_H2: usize = 128;

/// The version of the format.
pub const MLP_VERSION: u32 = 2;

/// A dense layer: `rows` inputs, `cols` outputs, weights by input, and a bias for each
/// output.
pub struct InferenceLinear {
    pub rows: usize,
    pub cols: usize,
    pub w: Vec<u32>,
    pub b: Vec<u32>,
}

/// The network of one character sequence.
pub struct MlpCharNet {
    pub fc1: InferenceLinear,
    pub fc2: InferenceLinear,
    pub fc3: InferenceLinear,
    /// The glyph of each class.
    pub class_map: Vec<u32>,
}

/// The networks of character sequences.
pub struct MlpClassifier {
    pub nets: SeqMap<MlpCharNet>,
}

/// What a network holds.
#[verifier::ext_equal]
pub struct NetRow {
    pub classes: Seq<u32>,
    pub w1: Seq<u32>,
    pub b1: Seq<u32>,
    pub w2: Seq<u32>,
    pub b2: Seq<u32>,
    pub w3: Seq<u32>,
    pub b3: Seq<u32>,
}

/// Why bytes are not network weights.
pub enum MlpError {
    /// There are less bytes than a header has.
    TooSmall,
    /// The file begins with other bytes.
    BadMagic(Magic),
    /// The version is another one.
    Version(u32),
    /// The bytes end before a number.
    Header,
    /// The bytes end inside the weights.
    Weights,
    /// A code point is not a character.
    Codepoint(u32),
    /// A sequence has no classes.
    ZeroClasses(Vec<char>),
}

/// The contents of an error.
pub enum MlpFault {
    TooSmall,
    BadMagic(Magic),
    Version(u32),
    Header,
    Weights,
    Codepoint(u32),
    ZeroClasses(Seq<char>),
}

impl View for MlpError {
    type V = MlpFault;

    open spec fn view(&self) -> MlpFault {
        match self {
            MlpError::TooSmall => MlpFault::TooSmall,
            MlpError::BadMagic(m) => MlpFault::BadMagic(*m),
            MlpError::Version(v) => MlpFault::Version(*v),
            MlpError::Header => MlpFault::Header,
            MlpError::Weights => MlpFault::Weights,
            MlpError::Codepoint(u) => MlpFault::Codepoint(*u),
            MlpError::ZeroClasses(s) => MlpFault::ZeroClasses(s@),
        }
    }
}

/// How the standard library shows a list of characters for debugging.
pub uninterp spec fn shown(s: Seq<char>) -> Seq<char>;

/// Calls `format!` with the debug format of a list of characters. The result is only
/// named: which characters are escaped, and how, is left to the standard library.
#[verifier::external_body]
pub(crate) fn debug_chars(s: &Vec<char>) -> (r: String)
    ensures
        r@ == shown(s@),
{
    format!("{:?}", s)
}

impl MlpError {
    /// The message of an error.
    pub open spec fn text(self) -> Seq<char> {
        match self {
            MlpError::TooSmall => "MLP file too small"@,
            MlpError::BadMagic(m) => "bad magic (expected MLPC, got "@ + m.text() + ")"@,
            MlpError::Version(v) => "MLP weights are v"@ + decimal(v as nat)
                + ", need v2 — retraining required"@,
            MlpError::Header => "truncated header data"@,
            MlpError::Weights => "truncated weight data"@,
            MlpError::Codepoint(u) => "invalid codepoint U+"@ + hex(u as int, 4, true),
            MlpError::ZeroClasses(s) => "seq "@ + shown(s@) + ": zero classes"@,
        }
    }

    /// The message of an error.
    pub fn message(&self) -> (r: String)
        ensures
            r@ == self.text(),
    {
        match self {
            MlpError::TooSmall => copy_of("MLP file too small"),
            MlpError::BadMagic(m) => {
                let mut s: String = copy_of("bad magic (expected MLPC, got ");
                s.append(m.list().as_str());
                s.append(")");
                s
            },
            MlpError::Version(v) => {
                let mut s: String = copy_of("MLP weights are v");
                s.append(text_of(&to_decimal(*v as u64)).as_str());
                s.append(", need v2 — retraining required");
                s
            },
            MlpError::Header => copy_of("truncated header data"),
            MlpError::Weights => copy_of("truncated weight data"),
            MlpError::Codepoint(u) => {
                let mut s: String = copy_of("invalid codepoint U+");
                s.append(text_of(&to_hex(*u as u64, 4, true)).as_str());
                s
            },
            MlpError::ZeroClasses(seq) => {
                let mut s: String = copy_of("seq ");
                s.append(debug_chars(seq).as_str());
                s.append(": zero classes");
                s
            },
        }
    }
}

/// The magic bytes `MLPC`.
pub open spec fn mlp_magic() -> Seq<u8> {
    seq![0x4du8, 0x4cu8, 0x50u8, 0x43u8]
}

impl InferenceLinear {
    /// The weights and biases have the sizes of the layer.
    pub open spec fn wf(&self) -> bool {
        self.w@.len() == self.rows * self.cols && self.b@.len() == self.cols
    }
}

impl MlpCharNet {
    pub open spec fn row(&self) -> NetRow {
        NetRow {
            classes: self.class_map@,
            w1: self.fc1.w@,
            b1: self.fc1.b@,
            w2: self.fc2.w@,
            b2: self.fc2.b@,
            w3: self.fc3.w@,
            b3: self.fc3.b@,
        }
    }

    /// The layers fit together, and the last one has an output for each class.
    pub open spec fn wf(&self) -> bool {
        &&& self.fc1.wf() && self.fc1.rows == FEAT_LEN && self.fc1.cols == MLP_H1
        &&& self.fc2.wf() && self.fc2.rows == MLP_H1 && self.fc2.cols == MLP_H2
        &&& self.fc3.wf() && self.fc3.rows == MLP_H2 && self.fc3.cols == self.class_map@.len()
        &&& self.class_map@.len() > 0
    }
}

impl NetRow {
    pub open spec fn wf(self) -> bool {
        &&& self.classes.len() > 0
        &&& self.w1.len() == FEAT_LEN * MLP_H1 && self.b1.len() == MLP_H1
        &&& self.w2.len() == MLP_H1 * MLP_H2 && self.b2.len() == MLP_H2
        &&& self.w3.len() == MLP_H2 * self.classes.len() && self.b3.len() == self.classes.len()
    }
}

// --- The bytes ---

pub open spec fn enc_net(s: Seq<char>, r: NetRow) -> Seq<u8> {
    enc_key(s) + (enc32(r.classes.len() as u32) + (enc32s(r.classes) + (enc32s(r.w1) + (enc32s(r.b1)
        + (enc32s(r.w2) + (enc32s(r.b2) + (enc32s(r.w3) + enc32s(r.b3))))))))
}

pub open spec fn enc_nets(keys: Seq<Seq<char>>, rows: Seq<NetRow>, k: int) -> Seq<u8>
    decreases k,
{
    if k <= 0 {
        Seq::empty()
    } else {
        enc_nets(keys, rows, k - 1) + enc_net(keys[k - 1], rows[k - 1])
    }
}

/// Networks as bytes.
pub open spec fn enc_mlp(keys: Seq<Seq<char>>, rows: Seq<NetRow>) -> Seq<u8> {
    mlp_magic() + (enc32(MLP_VERSION) + (enc32(rows.len() as u32) + enc_nets(
        keys,
        rows,
        rows.len() as int,
    )))
}

/// `n` code points from `p` on: whether they are there, and characters.
pub open spec fn check_points(data: Seq<u8>, p: int, n: int) -> Result<(), MlpFault>
    decreases n,
{
    if n <= 0 {
        Ok(())
    } else {
        match check_points(data, p, n - 1) {
            Err(e) => Err(e),
            Ok(_) => if p + 4 * n > data.len() {
                Err(MlpFault::Header)
            } else if !is_char_code(get32(data, p + 4 * (n - 1))) {
                Err(MlpFault::Codepoint(get32(data, p + 4 * (n - 1))))
            } else {
                Ok(())
            },
        }
    }
}

/// How many numbers the layers have, for `k` classes.
pub open spec fn weight_count(k: int) -> int {
    FEAT_LEN * MLP_H1 + MLP_H1 + MLP_H1 * MLP_H2 + MLP_H2 + MLP_H2 * k + k
}

/// The layers from `p` on, for the classes in `classes`.
pub open spec fn net_at(data: Seq<u8>, p: int, classes: Seq<u32>) -> NetRow {
    let k = classes.len() as int;
    let p1 = p + 4 * (FEAT_LEN * MLP_H1);
    let p2 = p1 + 4 * MLP_H1;
    let p3 = p2 + 4 * (MLP_H1 * MLP_H2);
    let p4 = p3 + 4 * MLP_H2;
    let p5 = p4 + 4 * (MLP_H2 * k);
    NetRow {
        classes,
        w1: get32s(data, p, FEAT_LEN * MLP_H1),
        b1: get32s(data, p1, MLP_H1 as int),
        w2: get32s(data, p2, MLP_H1 * MLP_H2),
        b2: get32s(data, p3, MLP_H2 as int),
        w3: get32s(data, p4, MLP_H2 * k),
        b3: get32s(data, p5, k),
    }
}

/// The network at `p`: its sequence, its contents and the position after it.
pub open spec fn parse_net(data: Seq<u8>, p: int) -> Result<(Seq<char>, NetRow, int), MlpFault> {
    if p + 4 > data.len() {
        Err(MlpFault::Header)
    } else {
        let n = get32(data, p) as int;
        match check_points(data, p + 4, n) {
            Err(e) => Err(e),
            Ok(_) => {
                let seq = crate::mapped_model::chars_at(data, p + 4, n);
                let q = p + 4 + 4 * n;
                if q + 4 > data.len() {
                    Err(MlpFault::Header)
                } else {
                    let k = get32(data, q) as int;
                    if k == 0 {
                        Err(MlpFault::ZeroClasses(seq))
                    } else if q + 4 + 4 * k > data.len() {
                        Err(MlpFault::Header)
                    } else if q + 4 + 4 * k + 4 * weight_count(k) > data.len() {
                        Err(MlpFault::Weights)
                    } else {
                        Ok(
                            (
                                seq,
                                net_at(data, q + 4 + 4 * k, get32s(data, q + 4, k)),
                                q + 4 + 4 * k + 4 * weight_count(k),
                            ),
                        )
                    }
                }
            },
        }
    }
}

/// `n` networks from `p` on. Of networks for the same sequence the last one counts.
pub open spec fn parse_nets(data: Seq<u8>, p: int, n: int) -> Result<
    (Map<Seq<char>, NetRow>, int),
    MlpFault,
>
    decreases n,
{
    if n <= 0 {
        Ok((Map::empty(), p))
    } else {
        match parse_nets(data, p, n - 1) {
            Err(e) => Err(e),
            Ok((m, q)) => match parse_net(data, q) {
                Err(e) => Err(e),
                Ok((seq, row, r)) => Ok((m.insert(seq, row), r)),
            },
        }
    }
}

/// What a weights file holds, or why it is none.
pub open spec fn parse_mlp(data: Seq<u8>) -> Result<Map<Seq<char>, NetRow>, MlpFault> {
    if data.len() < 12 {
        Err(MlpFault::TooSmall)
    } else if magic_of(data) != magic_of(mlp_magic()) {
        Err(MlpFault::BadMagic(magic_of(data)))
    } else if get32(data, 4) != MLP_VERSION {
        Err(MlpFault::Version(get32(data, 4)))
    } else {
        match parse_nets(data, 12, get32(data, 8) as int) {
            Err(e) => Err(e),
            Ok((m, _)) => Ok(m),
        }
    }
}

proof fn lemma_points_stop(data: Seq<u8>, p: int, k: int, n: int)
    requires
        0 <= k <= n,
        check_points(data, p, k) is Err,
    ensures
        check_points(data, p, n) == check_points(data, p, k),
    decreases n - k,
{
    if k < n {
        lemma_points_stop(data, p, k, n - 1);
    }
}

proof fn lemma_nets_stop(data: Seq<u8>, p: int, k: int, n: int)
    requires
        0 <= k <= n,
        parse_nets(data, p, k) is Err,
    ensures
        parse_nets(data, p, n) == parse_nets(data, p, k),
    decreases n - k,
{
    if k < n {
        lemma_nets_stop(data, p, k, n - 1);
    }
}

// --- Reading ---

fn read_points(data: &[u8], p: usize, n: u32) -> (r: Result<Vec<char>, MlpError>)
    requires
        p <= data@.len(),
    ensures
        match check_points(data@, p as int, n as int) {
            Err(e) => r is Err && r->Err_0@ == e,
            Ok(_) => r is Ok && r->Ok_0@ == crate::mapped_model::chars_at(
                data@,
                p as int,
                n as int,
            ) && p + 4 * n <= data@.len(),
        },
{
    let len: usize = data.len();
    let mut out: Vec<char> = Vec::new();
    let mut i: u32 = 0;
    let mut q: usize = p;
    while i < n
        invariant
            i <= n,
            len == data@.len(),
            q == p + 4 * i,
            q <= len,
            out@ == crate::mapped_model::chars_at(data@, p as int, i as int),
            check_points(data@, p as int, i as int) is Ok,
        decreases n - i,
    {
        if len - q < 4 {
            proof {
                lemma_points_stop(data@, p as int, i + 1, n as int);
            }
            return Err(MlpError::Header);
        }
        let u: u32 = read32(data, q);
        match char_from_code(u) {
            None => {
                proof {
                    lemma_points_stop(data@, p as int, i + 1, n as int);
                }
                return Err(MlpError::Codepoint(u));
            },
            Some(c) => {
                proof {
                    vstd::utf8::char_u32_cast(c, u);
                }
                out.push(c);
                assert(out@ =~= crate::mapped_model::chars_at(data@, p as int, i + 1));
            },
        }
        q = q + 4;
        i = i + 1;
    }
    Ok(out)
}

fn read_layers(data: &[u8], p: usize, class_map: Vec<u32>) -> (net: MlpCharNet)
    requires
        class_map@.len() > 0,
        p + 4 * weight_count(class_map@.len() as int) <= data@.len(),
    ensures
        net.wf(),
        net.row() == net_at(data@, p as int, class_map@),
{
    let len: usize = data.len();
    let k: usize = class_map.len();
    assert(FEAT_LEN * MLP_H1 == 16128 && MLP_H1 * MLP_H2 == 32768);
    let p1: usize = p + 4 * 16128;
    let p2: usize = p1 + 4 * MLP_H1;
    let p3: usize = p2 + 4 * 32768;
    let p4: usize = p3 + 4 * MLP_H2;
    let p5: usize = p4 + 4 * (MLP_H2 * k);
    let net = MlpCharNet {
        fc1: InferenceLinear {
            rows: FEAT_LEN,
            cols: MLP_H1,
            w: read32s(data, p, 16128),
            b: read32s(data, p1, MLP_H1),
        },
        fc2: InferenceLinear {
            rows: MLP_H1,
            cols: MLP_H2,
            w: read32s(data, p2, 32768),
            b: read32s(data, p3, MLP_H2),
        },
        fc3: InferenceLinear {
            rows: MLP_H2,
            cols: k,
            w: read32s(data, p4, MLP_H2 * k),
            b: read32s(data, p5, k),
        },
        class_map,
    };
    net
}

fn read_net(data: &[u8], p: usize) -> (r: Result<(Vec<char>, MlpCharNet, usize), MlpError>)
    requires
        p <= data@.len(),
    ensures
        match parse_net(data@, p as int) {
            Err(e) => r is Err && r->Err_0@ == e,
            Ok((seq, row, q)) => r is Ok && r->Ok_0.0@ == seq && r->Ok_0.1.row() == row
                && r->Ok_0.1.wf() && r->Ok_0.2 == q && q <= data@.len(),
        },
{
    let len: usize = data.len();
    if len - p < 4 {
        return Err(MlpError::Header);
    }
    let n: u32 = read32(data, p);
    let seq: Vec<char> = match read_points(data, p + 4, n) {
        Err(e) => {
            return Err(e);
        },
        Ok(s) => s,
    };
    let q: usize = p + 4 + 4 * (n as usize);
    if len - q < 4 {
        return Err(MlpError::Header);
    }
    let k: u32 = read32(data, q);
    if k == 0 {
        return Err(MlpError::ZeroClasses(seq));
    }
    assert(FEAT_LEN * MLP_H1 == 16128 && MLP_H1 * MLP_H2 == 32768);
    let left: u64 = (len - q - 4) as u64;
    let k4: u64 = 4 * (k as u64);
    if left < k4 {
        return Err(MlpError::Header);
    }
    let weights: u64 = 4 * (16128 + 256 + 32768 + 128 + 128 * (k as u64) + k as u64);
    if left - k4 < weights {
        return Err(MlpError::Weights);
    }
    let class_map: Vec<u32> = read32s(data, q + 4, k as usize);
    let at: usize = q + 4 + 4 * (k as usize);
    let net: MlpCharNet = read_layers(data, at, class_map);
    Ok((seq, net, at + weights as usize))
}

/// The contents of networks.
pub open spec fn net_rows(m: Map<Seq<char>, MlpCharNet>) -> Map<Seq<char>, NetRow> {
    m.map_values(|n: MlpCharNet| n.row())
}

/// How many glyphs the network of a sequence tells apart; none where there is no network.
pub open spec fn glyphs_in(t: Map<Seq<char>, NetRow>, s: Seq<char>) -> nat {
    if t.dom().contains(s) {
        t[s].classes.len()
    } else {
        0
    }
}

fn read_nets(data: &[u8], n: u32) -> (r: Result<SeqMap<MlpCharNet>, MlpError>)
    requires
        data@.len() >= 12,
    ensures
        match parse_nets(data@, 12, n as int) {
            Err(e) => r is Err && r->Err_0@ == e,
            Ok((m, _)) => r is Ok && r->Ok_0.wf() && net_rows(r->Ok_0@) == m && forall|
                k: Seq<char>,
            | #[trigger]
                r->Ok_0@.dom().contains(k) ==> r->Ok_0@[k].wf(),
        },
{
    let len: usize = data.len();
    let mut nets: SeqMap<MlpCharNet> = SeqMap::new();
    let mut q: usize = 12;
    let mut i: u32 = 0;
    assert(net_rows(nets@) =~= Map::<Seq<char>, NetRow>::empty());
    while i < n
        invariant
            i <= n,
            len == data@.len(),
            12 <= q <= len,
            nets.wf(),
            forall|k: Seq<char>| #[trigger] nets@.dom().contains(k) ==> nets@[k].wf(),
            parse_nets(data@, 12, i as int) == Ok::<(Map<Seq<char>, NetRow>, int), MlpFault>(
                (net_rows(nets@), q as int),
            ),
        decreases n - i,
    {
        match read_net(data, q) {
            Err(e) => {
                proof {
                    lemma_nets_stop(data@, 12, i + 1, n as int);
                }
                return Err(e);
            },
            Ok((seq, net, next)) => {
                let ghost before = nets@;
                let ghost key = seq@;
                let ghost value = net;
                nets.insert(seq, net);
                assert(net_rows(nets@) =~= net_rows(before).insert(key, value.row()));
                q = next;
            },
        }
        i = i + 1;
    }
    Ok(nets)
}

impl MlpClassifier {
    /// The network of each sequence is whole.
    pub open spec fn wf(&self) -> bool {
        &&& self.nets.wf()
        &&& forall|k: Seq<char>| #[trigger] self.nets@.dom().contains(k) ==> self.nets@[k].wf()
    }

    /// Reads network weights.
    pub fn from_bytes(data: &[u8]) -> (r: Result<MlpClassifier, MlpError>)
        ensures
            match parse_mlp(data@) {
                Err(e) => r is Err && r->Err_0@ == e,
                Ok(m) => r is Ok && r->Ok_0.wf() && net_rows(r->Ok_0.nets@) == m,
            },
    {
        let len: usize = data.len();
        if len < 12 {
            return Err(MlpError::TooSmall);
        }
        let found = Magic(data[0], data[1], data[2], data[3]);
        if found != Magic(0x4d, 0x4c, 0x50, 0x43) {
            return Err(MlpError::BadMagic(found));
        }
        let version: u32 = read32(data, 4);
        if version != MLP_VERSION {
            return Err(MlpError::Version(version));
        }
        let n: u32 = read32(data, 8);
        match read_nets(data, n) {
            Ok(nets) => Ok(MlpClassifier { nets }),
            Err(e) => Err(e),
        }
    }

    /// The glyph number of each class with its score.
    pub fn scored(&self, seq: &Vec<char>, probs: &Vec<u32>) -> (r: Vec<(u32, u32)>)
        requires
            self.wf(),
            self.nets@.dom().contains(seq@) ==> probs@.len() == self.nets@[seq@].class_map@.len(),
        ensures
            !self.nets@.dom().contains(seq@) ==> r@.len() == 0,
            self.nets@.dom().contains(seq@) ==> r@ == Seq::new(
                probs@.len(),
                |i: int| (self.nets@[seq@].class_map@[i], probs@[i]),
            ),
    {
        let mut r: Vec<(u32, u32)> = Vec::new();
        match self.nets.get(seq) {
            None => {},
            Some(net) => {
                let n: usize = probs.len();
                for i in 0..n
                    invariant
                        n == probs@.len(),
                        n == net.class_map@.len(),
                        r@ == Seq::new(i as nat, |j: int| (net.class_map@[j], probs@[j])),
                {
                    r.push((net.class_map[i], probs[i]));
                    assert(r@ =~= Seq::new((i + 1) as nat, |j: int| (net.class_map@[j], probs@[j])));
                }
            },
        }
        r
    }

    /// How many glyphs a sequence has.
    pub fn glyph_count(&self, seq: &Vec<char>) -> (n: usize)
        requires
            self.wf(),
        ensures
            n == glyphs_in(net_rows(self.nets@), seq@),
    {
        match self.nets.get(seq) {
            Some(net) => net.class_map.len(),
            None => 0,
        }
    }
}

// --- Writing ---

/// A network with its sequence.
pub struct MlpEntry {
    pub seq: Vec<char>,
    pub net: MlpCharNet,
}

pub open spec fn entry_seqs(v: Seq<MlpEntry>) -> Seq<Seq<char>> {
    Seq::new(v.len(), |i: int| v[i].seq@)
}

pub open spec fn entry_rows(v: Seq<MlpEntry>) -> Seq<NetRow> {
    Seq::new(v.len(), |i: int| v[i].net.row())
}

/// The numbers of sequences, of code points and of classes fit in the format.
pub open spec fn mlp_fits(keys: Seq<Seq<char>>, rows: Seq<NetRow>) -> bool {
    &&& keys.len() == rows.len()
    &&& rows.len() <= u32::MAX
    &&& forall|i: int| 0 <= i < keys.len() ==> (#[trigger] keys[i]).len() <= u32::MAX
    &&& forall|i: int| 0 <= i < rows.len() ==> (#[trigger] rows[i]).classes.len() <= u32::MAX
}

fn put_net(out: &mut Vec<u8>, e: &MlpEntry)
    requires
        e.seq@.len() <= u32::MAX,
        e.net.class_map@.len() <= u32::MAX,
    ensures
        final(out)@ == old(out)@ + enc_net(e.seq@, e.net.row()),
{
    let ghost r = e.net.row();
    let ghost b0 = out@;
    put32(out, e.seq.len() as u32);
    let cps: Vec<u32> = code_points(&e.seq);
    put32s(out, &cps);
    assert(out@ == b0 + enc_key(e.seq@)) by {
        lemma_regroup(b0, enc32(e.seq@.len() as u32), enc32s(points(e.seq@)));
    }
    let ghost b1 = out@;
    put32(out, e.net.class_map.len() as u32);
    let ghost b2 = out@;
    put32s(out, &e.net.class_map);
    let ghost b3 = out@;
    put32s(out, &e.net.fc1.w);
    let ghost b4 = out@;
    put32s(out, &e.net.fc1.b);
    let ghost b5 = out@;
    put32s(out, &e.net.fc2.w);
    let ghost b6 = out@;
    put32s(out, &e.net.fc2.b);
    let ghost b7 = out@;
    put32s(out, &e.net.fc3.w);
    put32s(out, &e.net.fc3.b);
    proof {
        let t7 = enc32s(r.w3) + enc32s(r.b3);
        let t6 = enc32s(r.b2) + t7;
        let t5 = enc32s(r.w2) + t6;
        let t4 = enc32s(r.b1) + t5;
        let t3 = enc32s(r.w1) + t4;
        let t2 = enc32s(r.classes) + t3;
        let t1 = enc32(r.classes.len() as u32) + t2;
        lemma_regroup(b7, enc32s(r.w3), enc32s(r.b3));
        lemma_regroup(b6, enc32s(r.b2), t7);
        lemma_regroup(b5, enc32s(r.w2), t6);
        lemma_regroup(b4, enc32s(r.b1), t5);
        lemma_regroup(b3, enc32s(r.w1), t4);
        lemma_regroup(b2, enc32s(r.classes), t3);
        lemma_regroup(b1, enc32(r.classes.len() as u32), t2);
        lemma_regroup(b0, enc_key(e.seq@), t1);
    }
}

/// Networks as bytes, in the given order.
pub fn mlp_bytes(entries: &Vec<MlpEntry>) -> (out: Vec<u8>)
    requires
        mlp_fits(entry_seqs(entries@), entry_rows(entries@)),
    ensures
        out@ == enc_mlp(entry_seqs(entries@), entry_rows(entries@)),
{
    let ghost keys = entry_seqs(entries@);
    let ghost rows = entry_rows(entries@);
    let n: usize = entries.len();
    let mut body: Vec<u8> = Vec::new();
    assert(body@ =~= enc_nets(keys, rows, 0));
    for i in 0..n
        invariant
            n == entries@.len(),
            keys == entry_seqs(entries@),
            rows == entry_rows(entries@),
            mlp_fits(keys, rows),
            body@ == enc_nets(keys, rows, i as int),
    {
        let e = &entries[i];
        assert(keys[i as int] == e.seq@);
        assert(rows[i as int] == e.net.row());
        put_net(&mut body, e);
    }
    let mut out: Vec<u8> = Vec::new();
    out.push(0x4d);
    out.push(0x4c);
    out.push(0x50);
    out.push(0x43);
    put32(&mut out, MLP_VERSION);
    put32(&mut out, n as u32);
    put_bytes(&mut out, body.as_slice());
    assert(out@ =~= enc_mlp(keys, rows));
    out
}

// --- Reading what was written ---

/// The last network of each sequence.
pub open spec fn net_table(keys: Seq<Seq<char>>, rows: Seq<NetRow>, k: int) -> Map<
    Seq<char>,
    NetRow,
>
    decreases k,
{
    if k <= 0 {
        Map::empty()
    } else {
        net_table(keys, rows, k - 1).insert(keys[k - 1], rows[k - 1])
    }
}

proof fn lemma_points_ok(data: Seq<u8>, p: int, s: Seq<char>, k: int)
    requires
        0 <= k <= s.len(),
        p + 4 * s.len() <= data.len(),
        get32s(data, p, s.len() as int) == points(s),
    ensures
        check_points(data, p, k) is Ok,
    decreases k,
{
    if k > 0 {
        lemma_points_ok(data, p, s, k - 1);
        assert(get32s(data, p, s.len() as int)[k - 1] == points(s)[k - 1]);
        assert(get32s(data, p, s.len() as int)[k - 1] == get32(data, p + 4 * (k - 1)));
        assert(points(s)[k - 1] == s[k - 1] as u32);
        crate::mapped_model::lemma_point(s[k - 1], get32(data, p + 4 * (k - 1)));
    }
}

proof fn lemma_layers(data: Seq<u8>, p: int, r: NetRow)
    requires
        r.wf(),
        stands_at(
            data,
            p,
            enc32s(r.w1) + (enc32s(r.b1) + (enc32s(r.w2) + (enc32s(r.b2) + (enc32s(r.w3) + enc32s(
                r.b3,
            ))))),
        ),
    ensures
        net_at(data, p, r.classes) == r,
        p + 4 * weight_count(r.classes.len() as int) <= data.len(),
{
    let k = r.classes.len() as int;
    let t5 = enc32s(r.w3) + enc32s(r.b3);
    let t4 = enc32s(r.b2) + t5;
    let t3 = enc32s(r.w2) + t4;
    let t2 = enc32s(r.b1) + t3;
    lemma_enc32s_len(r.w1);
    lemma_enc32s_len(r.b1);
    lemma_enc32s_len(r.w2);
    lemma_enc32s_len(r.b2);
    lemma_enc32s_len(r.w3);
    lemma_enc32s_len(r.b3);
    let p1 = p + 4 * (FEAT_LEN * MLP_H1);
    let p2 = p1 + 4 * MLP_H1;
    let p3 = p2 + 4 * (MLP_H1 * MLP_H2);
    let p4 = p3 + 4 * MLP_H2;
    let p5 = p4 + 4 * (MLP_H2 * k);
    lemma_stands_split(data, p, enc32s(r.w1), t2);
    lemma_stands_split(data, p1, enc32s(r.b1), t3);
    lemma_stands_split(data, p2, enc32s(r.w2), t4);
    lemma_stands_split(data, p3, enc32s(r.b2), t5);
    lemma_stands_split(data, p4, enc32s(r.w3), enc32s(r.b3));
    lemma_get32s(data, p, r.w1);
    lemma_get32s(data, p1, r.b1);
    lemma_get32s(data, p2, r.w2);
    lemma_get32s(data, p3, r.b2);
    lemma_get32s(data, p4, r.w3);
    lemma_get32s(data, p5, r.b3);
}

proof fn lemma_net(data: Seq<u8>, p: int, s: Seq<char>, r: NetRow)
    requires
        r.wf(),
        s.len() <= u32::MAX,
        r.classes.len() <= u32::MAX,
        stands_at(data, p, enc_net(s, r)),
    ensures
        parse_net(data, p) == Ok::<(Seq<char>, NetRow, int), MlpFault>(
            (s, r, p + enc_net(s, r).len()),
        ),
{
    let layers = enc32s(r.w1) + (enc32s(r.b1) + (enc32s(r.w2) + (enc32s(r.b2) + (enc32s(r.w3)
        + enc32s(r.b3)))));
    let t1 = enc32s(r.classes) + layers;
    let t0 = enc32(r.classes.len() as u32) + t1;
    lemma_enc32s_len(points(s));
    lemma_enc32s_len(r.classes);
    lemma_enc32s_len(r.w1);
    lemma_enc32s_len(r.b1);
    lemma_enc32s_len(r.w2);
    lemma_enc32s_len(r.b2);
    lemma_enc32s_len(r.w3);
    lemma_enc32s_len(r.b3);
    lemma_stands_split(data, p, enc_key(s), t0);
    lemma_stands_split(data, p, enc32(s.len() as u32), enc32s(points(s)));
    lemma_get32(data, p, s.len() as u32);
    lemma_get32s(data, p + 4, points(s));
    lemma_points_ok(data, p + 4, s, s.len() as int);
    crate::mapped_model::lemma_none_bad(data, p + 4, s, s.len() as int);
    assert(s.take(s.len() as int) =~= s);
    let q = p + 4 + 4 * s.len();
    let k = r.classes.len() as int;
    lemma_stands_split(data, q, enc32(r.classes.len() as u32), t1);
    lemma_get32(data, q, r.classes.len() as u32);
    lemma_stands_split(data, q + 4, enc32s(r.classes), layers);
    lemma_get32s(data, q + 4, r.classes);
    lemma_layers(data, q + 4 + 4 * k, r);
}

proof fn lemma_nets(data: Seq<u8>, p: int, keys: Seq<Seq<char>>, rows: Seq<NetRow>, k: int)
    requires
        0 <= k <= rows.len(),
        mlp_fits(keys, rows),
        forall|i: int| 0 <= i < rows.len() ==> (#[trigger] rows[i]).wf(),
        stands_at(data, p, enc_nets(keys, rows, k)),
    ensures
        parse_nets(data, p, k) == Ok::<(Map<Seq<char>, NetRow>, int), MlpFault>(
            (net_table(keys, rows, k), p + enc_nets(keys, rows, k).len()),
        ),
    decreases k,
{
    if k > 0 {
        let head = enc_nets(keys, rows, k - 1);
        lemma_stands_split(data, p, head, enc_net(keys[k - 1], rows[k - 1]));
        lemma_nets(data, p, keys, rows, k - 1);
        lemma_net(data, p + head.len(), keys[k - 1], rows[k - 1]);
    }
}

/// Networks that were written are read back.
pub proof fn law_mlp_round_trip(keys: Seq<Seq<char>>, rows: Seq<NetRow>)
    requires
        mlp_fits(keys, rows),
        forall|i: int| 0 <= i < rows.len() ==> (#[trigger] rows[i]).wf(),
    ensures
        parse_mlp(enc_mlp(keys, rows)) == Ok::<Map<Seq<char>, NetRow>, MlpFault>(
            net_table(keys, rows, rows.len() as int),
        ),
{
    let data = enc_mlp(keys, rows);
    let n = rows.len() as int;
    let body = enc_nets(keys, rows, n);
    assert(data.subrange(0, data.len() as int) =~= data);
    lemma_stands_split(data, 0, mlp_magic(), enc32(MLP_VERSION) + (enc32(n as u32) + body));
    lemma_stands_split(data, 4, enc32(MLP_VERSION), enc32(n as u32) + body);
    lemma_stands_split(data, 8, enc32(n as u32), body);
    lemma_get32(data, 4, MLP_VERSION);
    lemma_get32(data, 8, n as u32);
    lemma_nets(data, 12, keys, rows, n);
}

// --- The format ---

/// A file of networks begins with the letters of its mark, version two, and how many networks
/// there are; each fault is told apart, and the mark before the version.
pub proof fn law_mlp_header(data: Seq<u8>)
    ensures
        data.len() < 12 <==> parse_mlp(data) == Err::<Map<Seq<char>, NetRow>, MlpFault>(
            MlpFault::TooSmall,
        ),
        data.len() >= 12 && !(data[0] == 0x4d && data[1] == 0x4c && data[2] == 0x50 && data[3]
            == 0x43) ==> parse_mlp(data) == Err::<Map<Seq<char>, NetRow>, MlpFault>(
            MlpFault::BadMagic(Magic(data[0], data[1], data[2], data[3])),
        ),
        data.len() >= 12 && data[0] == 0x4d && data[1] == 0x4c && data[2] == 0x50 && data[3] == 0x43
            && get32(data, 4) != 2 ==> parse_mlp(data) == Err::<Map<Seq<char>, NetRow>, MlpFault>(
            MlpFault::Version(get32(data, 4)),
        ),
        data.len() >= 12 && data[0] == 0x4d && data[1] == 0x4c && data[2] == 0x50 && data[3] == 0x43
            && get32(data, 4) == 2 ==> parse_mlp(data) == (match parse_nets(
            data,
            12,
            get32(data, 8) as int,
        ) {
            Ok((m, _)) => Ok::<Map<Seq<char>, NetRow>, MlpFault>(m),
            Err(e) => Err(e),
        }),
{
    lemma_no_small(data, 12, get32(data, 8) as int);
}

proof fn lemma_no_small(data: Seq<u8>, p: int, n: int)
    ensures
        parse_nets(data, p, n) matches Err(e) ==> !(e is TooSmall),
    decreases n,
{
    if n > 0 {
        lemma_no_small(data, p, n - 1);
        if parse_nets(data, p, n - 1) is Ok {
            let q = parse_nets(data, p, n - 1)->Ok_0.1;
            lemma_points_fault(data, q + 4, get32(data, q) as int);
        }
    }
}

proof fn lemma_points_fault(data: Seq<u8>, p: int, n: int)
    ensures
        check_points(data, p, n) matches Err(e) ==> e is Header || e is Codepoint,
        check_points(data, p, n) is Ok ==> n <= 0 || p + 4 * n <= data.len(),
        check_points(data, p, n) is Ok ==> forall|i: int|
            0 <= i < n ==> is_char_code(#[trigger] get32(data, p + 4 * i)),
    decreases n,
{
    if n > 0 {
        lemma_points_fault(data, p, n - 1);
        assert forall|i: int| check_points(data, p, n) is Ok && 0 <= i < n implies is_char_code(
            #[trigger] get32(data, p + 4 * i),
        ) by {
            if i == n - 1 {
                assert(p + 4 * i == p + 4 * (n - 1));
            }
        }
    }
}

/// The record of a network holds the number and the codes of the characters of its sequence,
/// the number and the glyphs of its classes, and then layer by layer the weights and the
/// biases: 63 by 256 and 256, 256 by 128 and 128, and 128 by the classes and the classes. The
/// next record follows at once.
pub proof fn law_net_record(data: Seq<u8>, p: int)
    requires
        0 <= p,
    ensures
        parse_net(data, p) matches Ok((seq, row, next)) ==> {
            let n = get32(data, p) as int;
            let k = get32(data, p + 4 + 4 * n) as int;
            let c = p + 8 + 4 * n + 4 * k;
            &&& seq.len() == n && k > 0 && next <= data.len()
            &&& forall|i: int| 0 <= i < n ==> #[trigger] seq[i] as u32 == get32(data, p + 4 + 4 * i)
            &&& row.classes == get32s(data, p + 8 + 4 * n, k)
            &&& row.w1 == get32s(data, c, 16128)
            &&& row.b1 == get32s(data, c + 64512, 256)
            &&& row.w2 == get32s(data, c + 65536, 32768)
            &&& row.b2 == get32s(data, c + 196608, 128)
            &&& row.w3 == get32s(data, c + 197120, 128 * k)
            &&& row.b3 == get32s(data, c + 197120 + 512 * k, k)
            &&& next == c + 197120 + 516 * k
        },
        p + 4 > data.len() ==> parse_net(data, p) == Err::<
            (Seq<char>, NetRow, int),
            MlpFault,
        >(MlpFault::Header),
{
    let n = get32(data, p) as int;
    lemma_points_fault(data, p + 4, n);
    if parse_net(data, p) is Ok {
        let seq = parse_net(data, p)->Ok_0.0;
        assert forall|i: int| 0 <= i < n implies #[trigger] seq[i] as u32 == get32(
            data,
            p + 4 + 4 * i,
        ) by {
            assert(is_char_code(get32(data, p + 4 + 4 * i)));
            assert(seq[i] == get32(data, p + 4 + 4 * i) as char);
        }
    }
}

/// The networks follow each other, and of several for one sequence the last one stays.
pub proof fn law_nets_in_row(data: Seq<u8>, p: int, n: int)
    requires
        0 <= n,
    ensures
        parse_nets(data, p, 0) == Ok::<(Map<Seq<char>, NetRow>, int), MlpFault>((Map::empty(), p)),
        parse_nets(data, p, n) matches Ok((m, q)) ==> parse_nets(data, p, n + 1) == (
        match parse_net(data, q) {
            Ok((s, row, r)) => Ok::<(Map<Seq<char>, NetRow>, int), MlpFault>((m.insert(s, row), r)),
            Err(e) => Err(e),
        }),
        parse_nets(data, p, n) matches Err(e) ==> parse_nets(data, p, n + 1) == Err::<
            (Map<Seq<char>, NetRow>, int),
            MlpFault,
        >(e),
{
}

} // verus!
