//! Models read from their bytes without unpacking them.

use vstd::prelude::*;
use vstd::string::*;
use crate::bytes::{
    char_from_code, enc32, enc32s, enc64, get32, get32s, get64, is_char_code, lemma_enc32s_len,
    lemma_get32, lemma_get32s, lemma_get64, lemma_stands_split, read32, read32s, read64, read_text,
    stands_at, text_from,
};
use crate::ngram_model::{
    enc_data, enc_index, enc_key, enc_model, enc_row, enc_vecs, entry_numbers, entry_of,
    lemma_data_monotone, lemma_index_count, lemma_row_len, lemma_vecs_len, model_fits, points,
    ImageModel, IndexedEntry, ModelRow, NgramModel, ENTRY_SIZE, HEADER_SIZE, INDEXED_BIT,
};
use crate::seq_map::SeqMap;
use crate::sorting::strictly_ascending;
use crate::text::{copy_of, decimal, hex, text_of, texts, to_decimal, to_hex, views};

verus! {

/// The first four bytes of a file.
#[derive(Clone, Copy, Debug, PartialEq, Eq, Structural)]
pub struct Magic(pub u8, pub u8, pub u8, pub u8);

/// Why bytes are not a model.
#[derive(Clone, Copy, Debug, PartialEq, Eq, Structural)]
pub enum ModelError {
    /// There are less bytes than a header has.
    TooSmall,
    /// The file begins with other bytes.
    BadMagic { expected: Magic, found: Magic },
    /// The version lacks the mark of indexed files.
    NotIndexed(u32),
    /// The bytes end before the length of a font name.
    FontName,
    /// The bytes end inside a font name.
    FontNameData,
    /// The bytes end inside the index.
    EntryIndex,
    /// A code point is not a character.
    BadCodepoint(u32),
}

impl Magic {
    /// The bytes as a list.
    pub open spec fn text(self) -> Seq<char> {
        "["@ + decimal(self.0 as nat) + ", "@ + decimal(self.1 as nat) + ", "@ + decimal(
            self.2 as nat,
        ) + ", "@ + decimal(self.3 as nat) + "]"@
    }

    pub fn list(&self) -> (r: String)
        ensures
            r@ == self.text(),
    {
        let mut s: String = copy_of("[");
        s.append(text_of(&to_decimal(self.0 as u64)).as_str());
        s.append(", ");
        s.append(text_of(&to_decimal(self.1 as u64)).as_str());
        s.append(", ");
        s.append(text_of(&to_decimal(self.2 as u64)).as_str());
        s.append(", ");
        s.append(text_of(&to_decimal(self.3 as u64)).as_str());
        s.append("]");
        s
    }
}

impl ModelError {
    /// The message of an error.
    pub open spec fn text(self) -> Seq<char> {
        match self {
            ModelError::TooSmall => "file too small for indexed header"@,
            ModelError::BadMagic { expected, found } => "bad magic: expected "@ + expected.text()
                + ", got "@ + found.text(),
            ModelError::NotIndexed(v) => "not an indexed file (version "@ + decimal(v as nat)
                + ")"@,
            ModelError::FontName => "truncated font name"@,
            ModelError::FontNameData => "truncated font name data"@,
            ModelError::EntryIndex => "truncated entry index"@,
            ModelError::BadCodepoint(u) => "bad codepoint U+"@ + hex(u as int, 4, true),
        }
    }

    /// The message of an error.
    pub fn message(&self) -> (r: String)
        ensures
            r@ == self.text(),
    {
        match self {
            ModelError::TooSmall => copy_of("file too small for indexed header"),
            ModelError::BadMagic { expected, found } => {
                let mut s: String = copy_of("bad magic: expected ");
                s.append(expected.list().as_str());
                s.append(", got ");
                s.append(found.list().as_str());
                s
            },
            ModelError::NotIndexed(v) => {
                let mut s: String = copy_of("not an indexed file (version ");
                s.append(text_of(&to_decimal(*v as u64)).as_str());
                s.append(")");
                s
            },
            ModelError::FontName => copy_of("truncated font name"),
            ModelError::FontNameData => copy_of("truncated font name data"),
            ModelError::EntryIndex => copy_of("truncated entry index"),
            ModelError::BadCodepoint(u) => {
                let mut s: String = copy_of("bad codepoint U+");
                s.append(text_of(&to_hex(*u as u64, 4, true)).as_str());
                s
            },
        }
    }
}

// --- What bytes hold ---

/// What a model file holds.
#[verifier::ext_equal]
pub struct ParsedModel {
    pub catalog_hash: u64,
    pub data_off: u32,
    pub entries: Map<Seq<char>, IndexedEntry>,
    pub names: Seq<Seq<char>>,
}

/// `n` font names from `p` on, and the position after them.
pub open spec fn parse_font_names(data: Seq<u8>, p: int, n: int) -> Result<
    (Seq<Seq<char>>, int),
    ModelError,
>
    decreases n,
{
    if n <= 0 {
        Ok((Seq::empty(), p))
    } else {
        match parse_font_names(data, p, n - 1) {
            Err(e) => Err(e),
            Ok((names, q)) => if q + 4 > data.len() {
                Err(ModelError::FontName)
            } else {
                let len = get32(data, q) as int;
                if q + 4 + len > data.len() {
                    Err(ModelError::FontNameData)
                } else {
                    Ok((names.push(text_from(data.subrange(q + 4, q + 4 + len))), q + 4 + len))
                }
            },
        }
    }
}

/// The first of `n` numbers from `p` on that is not a character.
pub open spec fn first_bad(data: Seq<u8>, p: int, n: int) -> Option<u32>
    decreases n,
{
    if n <= 0 {
        None
    } else if first_bad(data, p, n - 1) is Some {
        first_bad(data, p, n - 1)
    } else if is_char_code(get32(data, p + 4 * (n - 1))) {
        None
    } else {
        Some(get32(data, p + 4 * (n - 1)))
    }
}

/// The characters of `n` code points from `p` on.
pub open spec fn chars_at(data: Seq<u8>, p: int, n: int) -> Seq<char> {
    Seq::new(n as nat, |i: int| get32(data, p + 4 * i) as char)
}

/// The fixed part of an index entry at `p`.
pub open spec fn entry_at(data: Seq<u8>, p: int) -> IndexedEntry {
    IndexedEntry {
        n_weights: get32(data, p),
        weights_off: get32(data, p + 4),
        n_centroids: get32(data, p + 8),
        gids_off: get32(data, p + 12),
        vecs_off: get32(data, p + 16),
        vec_dim: get32(data, p + 20),
        sigma_sq: get32(data, p + 24),
        med_nn: get32(data, p + 28),
    }
}

/// The index entry at `p`: its sequence, its fixed part and the position after it.
pub open spec fn parse_entry(data: Seq<u8>, p: int) -> Result<
    (Seq<char>, IndexedEntry, int),
    ModelError,
> {
    if p + 4 > data.len() {
        Err(ModelError::EntryIndex)
    } else {
        let n = get32(data, p) as int;
        if p + 4 + 4 * n + ENTRY_SIZE > data.len() {
            Err(ModelError::EntryIndex)
        } else {
            match first_bad(data, p + 4, n) {
                Some(u) => Err(ModelError::BadCodepoint(u)),
                None => Ok(
                    (
                        chars_at(data, p + 4, n),
                        entry_at(data, p + 4 + 4 * n),
                        p + 4 + 4 * n + ENTRY_SIZE,
                    ),
                ),
            }
        }
    }
}

/// `n` index entries from `p` on, and the position after them. Of entries for the same
/// sequence the last one counts.
pub open spec fn parse_entries(data: Seq<u8>, p: int, n: int) -> Result<
    (Map<Seq<char>, IndexedEntry>, int),
    ModelError,
>
    decreases n,
{
    if n <= 0 {
        Ok((Map::empty(), p))
    } else {
        match parse_entries(data, p, n - 1) {
            Err(e) => Err(e),
            Ok((m, q)) => match parse_entry(data, q) {
                Err(e) => Err(e),
                Ok((seq, e, r)) => Ok((m.insert(seq, e), r)),
            },
        }
    }
}

pub open spec fn magic_of(s: Seq<u8>) -> Magic {
    Magic(s[0], s[1], s[2], s[3])
}

/// What a model file holds, or why it is none.
pub open spec fn parse_model(data: Seq<u8>, magic: Seq<u8>) -> Result<ParsedModel, ModelError> {
    if data.len() < HEADER_SIZE {
        Err(ModelError::TooSmall)
    } else if magic_of(data) != magic_of(magic) {
        Err(ModelError::BadMagic { expected: magic_of(magic), found: magic_of(data) })
    } else if get32(data, 4) & INDEXED_BIT == 0 {
        Err(ModelError::NotIndexed(get32(data, 4)))
    } else {
        match parse_font_names(data, HEADER_SIZE as int, get32(data, 16) as int) {
            Err(e) => Err(e),
            Ok((names, _)) => match parse_entries(
                data,
                get32(data, 24) as int,
                get32(data, 20) as int,
            ) {
                Err(e) => Err(e),
                Ok((entries, _)) => Ok(
                    ParsedModel {
                        catalog_hash: get64(data, 8),
                        data_off: get32(data, 28),
                        entries,
                        names,
                    },
                ),
            },
        }
    }
}

proof fn lemma_names_stop(data: Seq<u8>, p: int, k: int, n: int)
    requires
        0 <= k <= n,
        parse_font_names(data, p, k) is Err,
    ensures
        parse_font_names(data, p, n) == parse_font_names(data, p, k),
    decreases n - k,
{
    if k < n {
        lemma_names_stop(data, p, k, n - 1);
    }
}

proof fn lemma_entries_stop(data: Seq<u8>, p: int, k: int, n: int)
    requires
        0 <= k <= n,
        parse_entries(data, p, k) is Err,
    ensures
        parse_entries(data, p, n) == parse_entries(data, p, k),
    decreases n - k,
{
    if k < n {
        lemma_entries_stop(data, p, k, n - 1);
    }
}

proof fn lemma_bad_stop(data: Seq<u8>, p: int, k: int, n: int)
    requires
        0 <= k <= n,
        first_bad(data, p, k) is Some,
    ensures
        first_bad(data, p, n) == first_bad(data, p, k),
    decreases n - k,
{
    if k < n {
        lemma_bad_stop(data, p, k, n - 1);
    }
}

// --- Reading ---

/// A model that is read from its bytes on demand.
pub struct MmapNgramModel {
    pub data: Vec<u8>,
    /// The hash of the font catalog that the model was trained on.
    pub catalog_hash: u64,
    /// Where the data section begins.
    pub data_off: u32,
    pub entries: SeqMap<IndexedEntry>,
    pub font_names: Vec<String>,
}

fn read_font_names(data: &[u8], p: usize, n: u32) -> (r: Result<Vec<String>, ModelError>)
    requires
        p <= data@.len(),
    ensures
        match parse_font_names(data@, p as int, n as int) {
            Ok((names, _)) => r is Ok && texts(r->Ok_0@) == names,
            Err(e) => r == Err::<Vec<String>, ModelError>(e),
        },
{
    let len: usize = data.len();
    let mut out: Vec<String> = Vec::new();
    let mut q: usize = p;
    let mut i: u32 = 0;
    assert(texts(out@) =~= Seq::<Seq<char>>::empty());
    while i < n
        invariant
            i <= n,
            len == data@.len(),
            p <= len,
            q <= len,
            parse_font_names(data@, p as int, i as int) == Ok::<(Seq<Seq<char>>, int), ModelError>(
                (texts(out@), q as int),
            ),
        decreases n - i,
    {
        if len - q < 4 {
            proof {
                lemma_names_stop(data@, p as int, i + 1, n as int);
            }
            return Err(ModelError::FontName);
        }
        let k: usize = read32(data, q) as usize;
        if len - q - 4 < k {
            proof {
                lemma_names_stop(data@, p as int, i + 1, n as int);
            }
            return Err(ModelError::FontNameData);
        }
        let ghost before = texts(out@);
        out.push(read_text(data, q + 4, k));
        assert(texts(out@) =~= before.push(text_from(data@.subrange(q + 4, q + 4 + k))));
        q = q + 4 + k;
        i = i + 1;
    }
    Ok(out)
}

pub fn read_seq(data: &[u8], p: usize, n: usize) -> (r: Result<Vec<char>, ModelError>)
    requires
        p + 4 * n <= data@.len(),
    ensures
        match first_bad(data@, p as int, n as int) {
            Some(u) => r == Err::<Vec<char>, ModelError>(ModelError::BadCodepoint(u)),
            None => r is Ok && r->Ok_0@ == chars_at(data@, p as int, n as int),
        },
{
    let len: usize = data.len();
    let mut out: Vec<char> = Vec::new();
    let mut i: usize = 0;
    while i < n
        invariant
            i <= n,
            len == data@.len(),
            p + 4 * n <= len,
            out@ == chars_at(data@, p as int, i as int),
            first_bad(data@, p as int, i as int) is None,
        decreases n - i,
    {
        let u: u32 = read32(data, p + 4 * i);
        match char_from_code(u) {
            None => {
                proof {
                    lemma_bad_stop(data@, p as int, i + 1, n as int);
                }
                return Err(ModelError::BadCodepoint(u));
            },
            Some(c) => {
                proof {
                    vstd::utf8::char_u32_cast(c, u);
                }
                out.push(c);
                assert(out@ =~= chars_at(data@, p as int, i + 1));
            },
        }
        i = i + 1;
    }
    Ok(out)
}

fn read_fixed(data: &[u8], p: usize) -> (e: IndexedEntry)
    requires
        p + ENTRY_SIZE <= data@.len(),
    ensures
        e == entry_at(data@, p as int),
{
    let len: usize = data.len();
    IndexedEntry {
        n_weights: read32(data, p),
        weights_off: read32(data, p + 4),
        n_centroids: read32(data, p + 8),
        gids_off: read32(data, p + 12),
        vecs_off: read32(data, p + 16),
        vec_dim: read32(data, p + 20),
        sigma_sq: read32(data, p + 24),
        med_nn: read32(data, p + 28),
    }
}

fn read_entries(data: &[u8], p: u32, n: u32) -> (r: Result<SeqMap<IndexedEntry>, ModelError>)
    ensures
        match parse_entries(data@, p as int, n as int) {
            Ok((m, _)) => r is Ok && r->Ok_0.wf() && r->Ok_0@ == m,
            Err(e) => r == Err::<SeqMap<IndexedEntry>, ModelError>(e),
        },
{
    let len: usize = data.len();
    let mut out: SeqMap<IndexedEntry> = SeqMap::new();
    if n == 0 {
        return Ok(out);
    }
    if (p as u64) > len as u64 {
        proof {
            assert(parse_entries(data@, p as int, 0) is Ok);
            assert(parse_entries(data@, p as int, 1) is Err);
            lemma_entries_stop(data@, p as int, 1, n as int);
        }
        return Err(ModelError::EntryIndex);
    }
    let mut q: usize = p as usize;
    let mut i: u32 = 0;
    while i < n
        invariant
            i <= n,
            len == data@.len(),
            q <= len,
            out.wf(),
            parse_entries(data@, p as int, i as int) == Ok::<
                (Map<Seq<char>, IndexedEntry>, int),
                ModelError,
            >((out@, q as int)),
        decreases n - i,
    {
        if len - q < 4 {
            proof {
                lemma_entries_stop(data@, p as int, i + 1, n as int);
            }
            return Err(ModelError::EntryIndex);
        }
        let k: u64 = read32(data, q) as u64;
        if ((len - q - 4) as u64) < 4 * k + ENTRY_SIZE as u64 {
            proof {
                lemma_entries_stop(data@, p as int, i + 1, n as int);
            }
            return Err(ModelError::EntryIndex);
        }
        let k: usize = k as usize;
        match read_seq(data, q + 4, k) {
            Err(e) => {
                proof {
                    lemma_entries_stop(data@, p as int, i + 1, n as int);
                }
                return Err(e);
            },
            Ok(seq) => {
                let e: IndexedEntry = read_fixed(data, q + 4 + 4 * k);
                out.insert(seq, e);
                q = q + 4 + 4 * k + ENTRY_SIZE;
            },
        }
        i = i + 1;
    }
    Ok(out)
}

/// Numbers that stand inside the file; no numbers stand anywhere.
pub open spec fn inside(len: int, base: u32, off: u32, n: int) -> bool {
    n <= 0 || base + off + 4 * n <= len
}

/// What an entry points to lies inside the file.
pub open spec fn entry_inside(len: int, base: u32, e: IndexedEntry) -> bool {
    &&& inside(len, base, e.weights_off, e.n_weights as int)
    &&& inside(len, base, e.gids_off, e.n_centroids as int)
    &&& inside(len, base, e.vecs_off, e.n_centroids * e.vec_dim)
}

/// The row that an entry points to.
pub open spec fn stored_row(data: Seq<u8>, base: u32, e: IndexedEntry) -> ModelRow {
    ModelRow {
        weights: get32s(data, base + e.weights_off, e.n_weights as int),
        ids: get32s(data, base + e.gids_off, e.n_centroids as int),
        vecs: Seq::new(
            e.n_centroids as nat,
            |i: int|
                get32s(data, base + e.vecs_off + 4 * (i * e.vec_dim), e.vec_dim as int),
        ),
        sigma_sq: e.sigma_sq,
        med_nn: e.med_nn,
    }
}

impl MmapNgramModel {
    pub open spec fn wf(&self) -> bool {
        self.entries.wf()
    }

    /// Every entry points into the file.
    pub open spec fn sound(&self) -> bool {
        &&& self.wf()
        &&& forall|k: Seq<char>| #[trigger]
            self.entries@.dom().contains(k) ==> entry_inside(
                self.data@.len() as int,
                self.data_off,
                self.entries@[k],
            )
    }

    /// What the entry of a sequence points to lies in the file.
    pub open spec fn usable(&self, key: Seq<char>) -> bool {
        self.entries@.dom().contains(key) ==> entry_inside(
            self.data@.len() as int,
            self.data_off,
            self.entries@[key],
        )
    }

    /// The weights of an entry lie in the file.
    pub open spec fn holds_weights(&self, e: IndexedEntry) -> bool {
        inside(self.data@.len() as int, self.data_off, e.weights_off, e.n_weights as int)
    }

    /// The weights of all sequences lie in the file.
    pub open spec fn weighted(&self) -> bool {
        &&& self.wf()
        &&& forall|k: Seq<char>| #[trigger]
            self.entries@.dom().contains(k) ==> self.holds_weights(self.entries@[k])
    }

    /// The row of a sequence.
    pub open spec fn row(&self, key: Seq<char>) -> ModelRow {
        stored_row(self.data@, self.data_off, self.entries@[key])
    }

    pub open spec fn parsed(&self) -> ParsedModel {
        ParsedModel {
            catalog_hash: self.catalog_hash,
            data_off: self.data_off,
            entries: self.entries@,
            names: texts(self.font_names@),
        }
    }

    /// Reads the header, the font names and the index of a model file.
    pub fn load_indexed(data: Vec<u8>, magic: &[u8; 4]) -> (r: Result<MmapNgramModel, ModelError>)
        ensures
            match parse_model(data@, magic@) {
                Ok(m) => r is Ok && r->Ok_0.wf() && r->Ok_0.data@ == data@ && r->Ok_0.parsed() == m,
                Err(e) => r == Err::<MmapNgramModel, ModelError>(e),
            },
    {
        let len: usize = data.len();
        if len < HEADER_SIZE {
            return Err(ModelError::TooSmall);
        }
        let found = Magic(data[0], data[1], data[2], data[3]);
        let expected = Magic(magic[0], magic[1], magic[2], magic[3]);
        if found != expected {
            return Err(ModelError::BadMagic { expected, found });
        }
        let bytes: &[u8] = data.as_slice();
        let version: u32 = read32(bytes, 4);
        if version & INDEXED_BIT == 0 {
            return Err(ModelError::NotIndexed(version));
        }
        let catalog_hash: u64 = read64(bytes, 8);
        let n_fonts: u32 = read32(bytes, 16);
        let n_entries: u32 = read32(bytes, 20);
        let index_off: u32 = read32(bytes, 24);
        let data_off: u32 = read32(bytes, 28);
        let font_names: Vec<String> = match read_font_names(bytes, HEADER_SIZE, n_fonts) {
            Ok(v) => v,
            Err(e) => {
                return Err(e);
            },
        };
        let entries: SeqMap<IndexedEntry> = match read_entries(bytes, index_off, n_entries) {
            Ok(v) => v,
            Err(e) => {
                return Err(e);
            },
        };
        Ok(MmapNgramModel { data, catalog_hash, data_off, entries, font_names })
    }

    /// Whether `n` numbers from `off` on in the data section stand inside the file.
    fn numbers_inside(&self, off: u32, n: u64) -> (r: bool)
        ensures
            r == inside(self.data@.len() as int, self.data_off, off, n as int),
    {
        n == 0 || self.data_off as u128 + off as u128 + 4 * (n as u128) <= self.data.len() as u128
    }

    /// Whether an entry points into the file.
    fn is_inside(&self, e: &IndexedEntry) -> (r: bool)
        ensures
            r == entry_inside(self.data@.len() as int, self.data_off, *e),
    {
        let count: u64 = e.n_centroids as u64;
        let dim: u64 = e.vec_dim as u64;
        assert(0 <= count * dim <= 0xffff_ffff * 0xffff_ffff) by (nonlinear_arith)
            requires
                0 <= count <= 0xffff_ffff,
                0 <= dim <= 0xffff_ffff,
        ;
        self.numbers_inside(e.weights_off, e.n_weights as u64) && self.numbers_inside(
            e.gids_off,
            count,
        ) && self.numbers_inside(e.vecs_off, count * dim)
    }

    /// Whether what the entry of a sequence points to lies in the file.
    pub fn is_usable(&self, seq: &Vec<char>) -> (r: bool)
        requires
            self.wf(),
        ensures
            r == self.usable(seq@),
    {
        match self.entries.get(seq) {
            Some(e) => self.is_inside(e),
            None => true,
        }
    }

    /// Whether the weights of all sequences lie in the file.
    pub fn has_weights(&self) -> (r: bool)
        requires
            self.wf(),
        ensures
            r == self.weighted(),
    {
        let n: usize = self.entries.values.len();
        for i in 0..n
            invariant
                self.wf(),
                n == self.entries.values@.len(),
                forall|k: int|
                    0 <= k < i ==> self.holds_weights(#[trigger] self.entries.values@[k]),
        {
            let e = self.entries.values[i];
            if !self.numbers_inside(e.weights_off, e.n_weights as u64) {
                proof {
                    self.entries.lemma_entry(i as int);
                }
                return false;
            }
        }
        proof {
            assert forall|k: Seq<char>| #[trigger]
                self.entries@.dom().contains(k) implies self.holds_weights(self.entries@[k]) by {
                let v = views(self.entries.keys@);
                let j = choose|j: int| 0 <= j < v.len() && v[j] == k;
                assert(self.entries.keys@[j]@ == k);
                self.entries.lemma_entry(j);
                assert(self.holds_weights(self.entries.values@[j]));
            }
        }
        true
    }

    /// Whether every entry points into the file.
    pub fn is_sound(&self) -> (r: bool)
        requires
            self.wf(),
        ensures
            r == self.sound(),
    {
        let n: usize = self.entries.values.len();
        let mut i: usize = 0;
        while i < n
            invariant
                self.wf(),
                i <= n,
                n == self.entries.values@.len(),
                forall|k: int|
                    0 <= k < i ==> entry_inside(
                        self.data@.len() as int,
                        self.data_off,
                        #[trigger] self.entries.values@[k],
                    ),
            decreases n - i,
        {
            let e = self.entries.values[i];
            if !self.is_inside(&e) {
                proof {
                    self.entries.lemma_entry(i as int);
                }
                return false;
            }
            i = i + 1;
        }
        proof {
            assert forall|k: Seq<char>| #[trigger] self.entries@.dom().contains(k) implies entry_inside(
                self.data@.len() as int,
                self.data_off,
                self.entries@[k],
            ) by {
                let v = views(self.entries.keys@);
                let j = choose|j: int| 0 <= j < v.len() && v[j] == k;
                assert(self.entries.keys@[j]@ == k);
                self.entries.lemma_entry(j);
                assert(entry_inside(
                    self.data@.len() as int,
                    self.data_off,
                    self.entries.values@[j],
                ));
            }
        }
        true
    }

    fn numbers(&self, off: u32, n: usize) -> (v: Vec<u32>)
        requires
            inside(self.data@.len() as int, self.data_off, off, n as int),
        ensures
            v@ == get32s(self.data@, self.data_off + off, n as int),
    {
        let len: usize = self.data.len();
        if n == 0 {
            let v: Vec<u32> = Vec::new();
            assert(v@ =~= get32s(self.data@, self.data_off + off, 0));
            v
        } else {
            read32s(self.data.as_slice(), self.data_off as usize + off as usize, n)
        }
    }

    /// How many glyphs a sequence has.
    pub fn glyph_count(&self, seq: &Vec<char>) -> (n: usize)
        requires
            self.wf(),
        ensures
            n == (if self.entries@.dom().contains(seq@) {
                self.entries@[seq@].n_centroids as int
            } else {
                0
            }),
    {
        match self.entries.get(seq) {
            Some(e) => e.n_centroids as usize,
            None => 0,
        }
    }

    /// The glyph numbers of a sequence.
    pub fn glyph_ids(&self, seq: &Vec<char>) -> (v: Vec<u32>)
        requires
            self.wf(),
            self.usable(seq@),
        ensures
            v@ == (if self.entries@.dom().contains(seq@) {
                self.row(seq@).ids
            } else {
                Seq::empty()
            }),
    {
        match self.entries.get(seq) {
            Some(e) => self.numbers(e.gids_off, e.n_centroids as usize),
            None => Vec::new(),
        }
    }

    /// The centroids of a sequence, one for each glyph.
    pub fn centroid_vecs(&self, seq: &Vec<char>) -> (v: Vec<Vec<u32>>)
        requires
            self.wf(),
            self.usable(seq@),
        ensures
            v@.len() == (if self.entries@.dom().contains(seq@) {
                self.row(seq@).vecs
            } else {
                Seq::empty()
            }).len(),
            forall|i: int| 0 <= i < v@.len() ==> (#[trigger] v@[i])@ == self.row(seq@).vecs[i],
    {
        match self.entries.get(seq) {
            Some(e) => self.entry_vecs(e),
            None => Vec::new(),
        }
    }

    fn entry_vecs(&self, e: &IndexedEntry) -> (v: Vec<Vec<u32>>)
        requires
            entry_inside(self.data@.len() as int, self.data_off, *e),
        ensures
            v@.len() == e.n_centroids,
            forall|i: int|
                0 <= i < v@.len() ==> (#[trigger] v@[i])@ == stored_row(
                    self.data@,
                    self.data_off,
                    *e,
                ).vecs[i],
    {
        let len: usize = self.data.len();
        let n: usize = e.n_centroids as usize;
        let d: usize = e.vec_dim as usize;
        let ghost row = stored_row(self.data@, self.data_off, *e);
        let mut out: Vec<Vec<u32>> = Vec::new();
        let mut i: usize = 0;
        let mut p: usize = 0;
        if n > 0 && d > 0 {
            assert(n * d >= 1) by (nonlinear_arith)
                requires
                    n >= 1,
                    d >= 1,
            ;
            p = self.data_off as usize + e.vecs_off as usize;
        }
        assert(0 * d == 0);
        while i < n
            invariant
                i <= n,
                len == self.data@.len(),
                n == e.n_centroids,
                d == e.vec_dim,
                row == stored_row(self.data@, self.data_off, *e),
                n > 0 && d > 0 ==> p == self.data_off + e.vecs_off + 4 * (i * d),
                n > 0 && d > 0 ==> self.data_off + e.vecs_off + 4 * (n * d) <= len,
                d == 0 ==> p == 0,
                out@.len() == i,
                forall|k: int| 0 <= k < i ==> (#[trigger] out@[k])@ == row.vecs[k],
            decreases n - i,
        {
            assert((i + 1) * d <= n * d) by (nonlinear_arith)
                requires
                    i + 1 <= n,
                    0 <= d,
            ;
            assert((i + 1) * d == i * d + d) by (nonlinear_arith);
            let v: Vec<u32> = read32s(self.data.as_slice(), p, d);
            assert(v@ =~= row.vecs[i as int]);
            out.push(v);
            p = p + 4 * d;
            i = i + 1;
        }
        out
    }

    /// What the query for a sequence is weighted by.
    pub fn weights(&self, seq: &Vec<char>) -> (r: Option<Vec<u32>>)
        requires
            self.wf(),
            self.entries@.dom().contains(seq@) ==> self.holds_weights(self.entries@[seq@]),
        ensures
            r is Some <==> self.entries@.dom().contains(seq@),
            r is Some ==> r->0@ == self.row(seq@).weights,
    {
        match self.entries.get(seq) {
            Some(e) => Some(self.numbers(e.weights_off, e.n_weights as usize)),
            None => None,
        }
    }

    /// The sequences, in ascending order.
    pub fn entry_keys(&self) -> (v: &Vec<Vec<char>>)
        requires
            self.wf(),
        ensures
            strictly_ascending(views(v@)),
            forall|k: Seq<char>| views(v@).contains(k) <==> self.entries@.dom().contains(k),
    {
        &self.entries.keys
    }

    fn entry_model(&self, e: &IndexedEntry) -> (m: ImageModel)
        requires
            entry_inside(self.data@.len() as int, self.data_off, *e),
        ensures
            m.row() == stored_row(self.data@, self.data_off, *e),
    {
        let ghost row = stored_row(self.data@, self.data_off, *e);
        let weights: Vec<u32> = self.numbers(e.weights_off, e.n_weights as usize);
        let ids: Vec<u32> = self.numbers(e.gids_off, e.n_centroids as usize);
        let vecs: Vec<Vec<u32>> = self.entry_vecs(e);
        let mut centroids: Vec<(u32, Vec<u32>)> = Vec::new();
        let n: usize = ids.len();
        for i in 0..n
            invariant
                n == ids@.len(),
                n == vecs@.len(),
                ids@ == row.ids,
                n == row.vecs.len(),
                forall|k: int| 0 <= k < n ==> (#[trigger] vecs@[k])@ == row.vecs[k],
                centroids@.len() == i,
                forall|k: int|
                    0 <= k < i ==> (#[trigger] centroids@[k]).0 == row.ids[k] && centroids@[k].1@
                        == row.vecs[k],
        {
            let v: Vec<u32> = copy_numbers(&vecs[i]);
            centroids.push((ids[i], v));
        }
        let m = ImageModel { weights, centroids, sigma_sq: e.sigma_sq, med_nn: e.med_nn };
        assert(m.row().ids =~= row.ids);
        assert(m.row().vecs =~= row.vecs);
        m
    }

    /// The model, unpacked.
    pub fn to_owned_model(&self) -> (m: NgramModel)
        requires
            self.sound(),
        ensures
            m.wf(),
            m.catalog_hash == self.catalog_hash,
            m.entries@.dom() == self.entries@.dom(),
            m.key_seqs() == views(self.entries.keys@),
            forall|k: Seq<char>| #[trigger]
                self.entries@.dom().contains(k) ==> m.entries@[k].row() == self.row(k),
    {
        let n: usize = self.entries.values.len();
        let mut keys: Vec<Vec<char>> = Vec::new();
        let mut values: Vec<ImageModel> = Vec::new();
        let mut i: usize = 0;
        while i < n
            invariant
                self.sound(),
                i <= n,
                n == self.entries.values@.len(),
                n == self.entries.keys@.len(),
                keys@.len() == i,
                values@.len() == i,
                forall|k: int| 0 <= k < i ==> (#[trigger] keys@[k])@ == self.entries.keys@[k]@,
                forall|k: int|
                    0 <= k < i ==> (#[trigger] values@[k]).row() == stored_row(
                        self.data@,
                        self.data_off,
                        self.entries.values@[k],
                    ),
            decreases n - i,
        {
            proof {
                self.entries.lemma_entry(i as int);
            }
            let k: Vec<char> = crate::text::slice_of(
                &self.entries.keys[i],
                0,
                self.entries.keys[i].len(),
            );
            assert(k@ =~= self.entries.keys@[i as int]@);
            keys.push(k);
            values.push(self.entry_model(&self.entries.values[i]));
            i = i + 1;
        }
        let m = NgramModel {
            entries: SeqMap { keys, values },
            catalog_hash: self.catalog_hash,
        };
        proof {
            assert(m.key_seqs() =~= views(self.entries.keys@));
            assert(m.entries.wf());
            assert forall|i: int| 0 <= i < m.rows().len() implies (#[trigger] m.rows()[i]).wf() by {
                assert(m.rows()[i] == m.entries.values@[i].row());
            }
            assert(m.entries@.dom() =~= self.entries@.dom());
            assert forall|k: Seq<char>| #[trigger] self.entries@.dom().contains(k) implies m.entries@[k].row()
                == self.row(k) by {
                let v = views(self.entries.keys@);
                let j = choose|j: int| 0 <= j < v.len() && v[j] == k;
                assert(self.entries.keys@[j]@ == k);
                self.entries.lemma_entry(j);
                assert(m.entries.keys@[j]@ == k);
                m.entries.lemma_entry(j);
            }
        }
        m
    }
}

/// The same numbers again.
pub fn copy_numbers(v: &Vec<u32>) -> (r: Vec<u32>)
    ensures
        r@ == v@,
{
    let n: usize = v.len();
    let mut r: Vec<u32> = Vec::new();
    for i in 0..n
        invariant
            n == v@.len(),
            r@ == v@.take(i as int),
    {
        r.push(v[i]);
        assert(r@ =~= v@.take(i + 1));
    }
    assert(v@.take(n as int) =~= v@);
    r
}

// --- Reading what was written ---

/// The entries of the first `k` rows.
pub open spec fn written_entries(keys: Seq<Seq<char>>, rows: Seq<ModelRow>, k: int) -> Map<
    Seq<char>,
    IndexedEntry,
>
    decreases k,
{
    if k <= 0 {
        Map::empty()
    } else {
        written_entries(keys, rows, k - 1).insert(
            keys[k - 1],
            entry_of(rows[k - 1], enc_data(rows, k - 1).len() as int),
        )
    }
}

proof fn lemma_written_entries(keys: Seq<Seq<char>>, rows: Seq<ModelRow>, k: int)
    requires
        0 <= k <= keys.len(),
        keys.len() == rows.len(),
        strictly_ascending(keys),
    ensures
        forall|s: Seq<char>| #[trigger]
            written_entries(keys, rows, k).dom().contains(s) <==> keys.take(k).contains(s),
        forall|j: int|
            0 <= j < k ==> written_entries(keys, rows, k)[#[trigger] keys[j]] == entry_of(
                rows[j],
                enc_data(rows, j).len() as int,
            ),
    decreases k,
{
    if k > 0 {
        lemma_written_entries(keys, rows, k - 1);
        let m = written_entries(keys, rows, k - 1);
        assert forall|s: Seq<char>|
            #[trigger] written_entries(keys, rows, k).dom().contains(s) <==> keys.take(k).contains(s) by {
            let a = keys.take(k - 1);
            let b = keys.take(k);
            assert(b =~= a.push(keys[k - 1]));
            if b.contains(s) {
                let i = choose|i: int| 0 <= i < b.len() && b[i] == s;
                if i < k - 1 {
                    assert(a[i] == s);
                }
            }
            if a.contains(s) {
                let i = choose|i: int| 0 <= i < a.len() && a[i] == s;
                assert(b[i] == s);
            }
            assert(b[k - 1] == keys[k - 1]);
            assert(m.dom().contains(s) <==> a.contains(s));
        }
        assert forall|j: int| 0 <= j < k implies written_entries(keys, rows, k)[#[trigger] keys[j]]
            == entry_of(rows[j], enc_data(rows, j).len() as int) by {
            if j < k - 1 {
                assert(keys[j] != keys[k - 1]);
            }
        }
    } else {
        assert(keys.take(0) =~= Seq::empty());
    }
}

pub proof fn lemma_point(c: char, u: u32)
    requires
        u == c as u32,
    ensures
        is_char_code(u),
        u as char == c,
{
}

pub proof fn lemma_none_bad(data: Seq<u8>, p: int, s: Seq<char>, k: int)
    requires
        0 <= k <= s.len(),
        get32s(data, p, s.len() as int) == points(s),
    ensures
        first_bad(data, p, k) is None,
        chars_at(data, p, k) == s.take(k),
    decreases k,
{
    if k > 0 {
        lemma_none_bad(data, p, s, k - 1);
        assert(get32s(data, p, s.len() as int)[k - 1] == points(s)[k - 1]);
        assert(get32s(data, p, s.len() as int)[k - 1] == get32(data, p + 4 * (k - 1)));
        assert(points(s)[k - 1] == s[k - 1] as u32);
        lemma_point(s[k - 1], get32(data, p + 4 * (k - 1)));
    }
    assert forall|i: int| 0 <= i < k implies #[trigger] chars_at(data, p, k)[i] == s.take(k)[i] by {
        assert(get32s(data, p, s.len() as int)[i] == points(s)[i]);
        assert(get32s(data, p, s.len() as int)[i] == get32(data, p + 4 * i));
        assert(points(s)[i] == s[i] as u32);
        lemma_point(s[i], get32(data, p + 4 * i));
    }
    assert(chars_at(data, p, k) =~= s.take(k));
}

proof fn lemma_parse_entry(data: Seq<u8>, p: int, s: Seq<char>, e: IndexedEntry)
    requires
        stands_at(data, p, enc_key(s) + enc32s(entry_numbers(e))),
        s.len() <= u32::MAX,
    ensures
        parse_entry(data, p) == Ok::<(Seq<char>, IndexedEntry, int), ModelError>(
            (s, e, p + enc_key(s).len() + enc32s(entry_numbers(e)).len()),
        ),
{
    let nums = entry_numbers(e);
    lemma_enc32s_len(nums);
    lemma_enc32s_len(points(s));
    lemma_stands_split(data, p, enc_key(s), enc32s(nums));
    lemma_stands_split(data, p, enc32(s.len() as u32), enc32s(points(s)));
    lemma_get32(data, p, s.len() as u32);
    lemma_get32s(data, p + 4, points(s));
    lemma_none_bad(data, p + 4, s, s.len() as int);
    assert(s.take(s.len() as int) =~= s);
    let q = p + 4 + 4 * s.len();
    lemma_get32s(data, q, nums);
    let got = get32s(data, q, 8);
    assert(got == nums);
    assert(got[0] == nums[0] && got[1] == nums[1] && got[2] == nums[2] && got[3] == nums[3]);
    assert(got[4] == nums[4] && got[5] == nums[5] && got[6] == nums[6] && got[7] == nums[7]);
    assert(entry_at(data, q) == e);
}

proof fn lemma_parse_entries(
    data: Seq<u8>,
    p: int,
    keys: Seq<Seq<char>>,
    rows: Seq<ModelRow>,
    k: int,
)
    requires
        0 <= k <= keys.len(),
        stands_at(data, p, enc_index(keys, rows, k)),
        enc_index(keys, rows, k).len() <= u32::MAX,
    ensures
        parse_entries(data, p, k) == Ok::<(Map<Seq<char>, IndexedEntry>, int), ModelError>(
            (written_entries(keys, rows, k), p + enc_index(keys, rows, k).len()),
        ),
    decreases k,
{
    if k > 0 {
        let head = enc_index(keys, rows, k - 1);
        let e = entry_of(rows[k - 1], enc_data(rows, k - 1).len() as int);
        let tail = enc_key(keys[k - 1]) + enc32s(entry_numbers(e));
        lemma_stands_split(data, p, head, tail);
        lemma_parse_entries(data, p, keys, rows, k - 1);
        lemma_enc32s_len(points(keys[k - 1]));
        lemma_parse_entry(data, p + head.len(), keys[k - 1], e);
    }
}

/// Where the data section stands, each row stands at its offset.
proof fn lemma_row_stands(data: Seq<u8>, p: int, rows: Seq<ModelRow>, k: int, j: int)
    requires
        0 <= j < k <= rows.len(),
        stands_at(data, p, enc_data(rows, k)),
    ensures
        stands_at(data, p + enc_data(rows, j).len(), enc_row(rows[j])),
    decreases k,
{
    lemma_stands_split(data, p, enc_data(rows, k - 1), enc_row(rows[k - 1]));
    if j < k - 1 {
        lemma_row_stands(data, p, rows, k - 1, j);
    }
}

pub proof fn lemma_vec_stands(data: Seq<u8>, p: int, v: Seq<Seq<u32>>, d: int, j: int)
    requires
        stands_at(data, p, enc_vecs(v)),
        forall|i: int| 0 <= i < v.len() ==> (#[trigger] v[i]).len() == d,
        0 <= j < v.len(),
    ensures
        get32s(data, p + 4 * (j * d), d) == v[j],
    decreases v.len(),
{
    let w = v.drop_last();
    assert forall|i: int| 0 <= i < w.len() implies (#[trigger] w[i]).len() == d by {
        assert(w[i] == v[i]);
    }
    lemma_vecs_len(w, d);
    lemma_stands_split(data, p, enc_vecs(w), enc32s(v.last()));
    if j < w.len() {
        lemma_vec_stands(data, p, w, d, j);
    } else {
        lemma_get32s(data, p + enc_vecs(w).len(), v.last());
    }
}

/// A row is read from where its data stand.
proof fn lemma_stored_row(data: Seq<u8>, base: u32, off: int, r: ModelRow)
    requires
        r.wf(),
        0 <= off,
        off + enc_row(r).len() <= u32::MAX,
        stands_at(data, base + off, enc_row(r)),
    ensures
        stored_row(data, base, entry_of(r, off)) == r,
        entry_inside(data.len() as int, base, entry_of(r, off)),
{
    lemma_row_len(r);
    lemma_enc32s_len(r.weights);
    lemma_enc32s_len(r.ids);
    lemma_vecs_len(r.vecs, r.dim());
    let p = base + off;
    let e = entry_of(r, off);
    lemma_stands_split(data, p, enc32s(r.weights), enc32s(r.ids) + enc_vecs(r.vecs));
    lemma_stands_split(data, p + 4 * r.weights.len(), enc32s(r.ids), enc_vecs(r.vecs));
    lemma_get32s(data, p, r.weights);
    lemma_get32s(data, p + 4 * r.weights.len(), r.ids);
    let q = p + 4 * r.weights.len() + 4 * r.ids.len();
    let got = stored_row(data, base, e);
    assert forall|i: int| 0 <= i < r.vecs.len() implies #[trigger] got.vecs[i] == r.vecs[i] by {
        lemma_vec_stands(data, q, r.vecs, r.dim(), i);
    }
    assert(got.vecs =~= r.vecs);
}

/// The header of a written model, and where its sections stand.
proof fn lemma_header(
    magic: Seq<u8>,
    version: u32,
    hash: u64,
    keys: Seq<Seq<char>>,
    rows: Seq<ModelRow>,
)
    requires
        magic.len() == 4,
        model_fits(keys, rows),
    ensures
        ({
            let n = rows.len() as int;
            let data = enc_model(magic, version, hash, keys, rows);
            let index = enc_index(keys, rows, n);
            &&& data.len() >= HEADER_SIZE
            &&& magic_of(data) == magic_of(magic)
            &&& get32(data, 4) == version | INDEXED_BIT
            &&& get32(data, 4) & INDEXED_BIT != 0
            &&& get64(data, 8) == hash
            &&& get32(data, 16) == 0
            &&& get32(data, 20) == n
            &&& get32(data, 24) == 32
            &&& get32(data, 28) == 32 + index.len()
            &&& stands_at(data, 32, index)
            &&& stands_at(data, 32 + index.len() as int, enc_data(rows, n))
        }),
{
    reveal(enc_model);
    let n = rows.len() as int;
    let index = enc_index(keys, rows, n);
    let body = enc_data(rows, n);
    let data = enc_model(magic, version, hash, keys, rows);
    let mark = version | INDEXED_BIT;
    let off = (HEADER_SIZE + index.len()) as u32;
    lemma_index_count(keys, rows, n);
    assert(data.subrange(0, data.len() as int) =~= data);
    let t6 = enc32(off) + (index + body);
    let t5 = enc32(HEADER_SIZE as u32) + t6;
    let t4 = enc32(n as u32) + t5;
    let t3 = enc32(0) + t4;
    let t2 = enc64(hash) + t3;
    let t1 = enc32(mark) + t2;
    lemma_stands_split(data, 0, magic, t1);
    lemma_stands_split(data, 4, enc32(mark), t2);
    lemma_stands_split(data, 8, enc64(hash), t3);
    lemma_stands_split(data, 16, enc32(0), t4);
    lemma_stands_split(data, 20, enc32(n as u32), t5);
    lemma_stands_split(data, 24, enc32(HEADER_SIZE as u32), t6);
    lemma_stands_split(data, 28, enc32(off), index + body);
    lemma_stands_split(data, 32, index, body);
    let head = data.subrange(0, 4);
    assert(head[0] == data[0] && head[1] == data[1] && head[2] == data[2] && head[3] == data[3]);
    lemma_get32(data, 4, mark);
    lemma_get64(data, 8, hash);
    lemma_get32(data, 16, 0);
    lemma_get32(data, 20, n as u32);
    lemma_get32(data, 24, HEADER_SIZE as u32);
    lemma_get32(data, 28, off);
    assert((version | 0x8000_0000u32) & 0x8000_0000u32 != 0) by (bit_vector);
}

/// A model that was written is read back: its version is marked as indexed, every sequence is
/// there, no other one is, and each entry points to the weights, glyph numbers, centroids and scales of its sequence.
pub proof fn law_model_round_trip(
    magic: Seq<u8>,
    version: u32,
    hash: u64,
    keys: Seq<Seq<char>>,
    rows: Seq<ModelRow>,
)
    requires
        magic.len() == 4,
        keys.len() == rows.len(),
        strictly_ascending(keys),
        forall|i: int| 0 <= i < rows.len() ==> (#[trigger] rows[i]).wf(),
        model_fits(keys, rows),
    ensures
        ({
            let data = enc_model(magic, version, hash, keys, rows);
            let got = parse_model(data, magic);
            &&& got is Ok
            &&& get32(data, 4) == version | INDEXED_BIT
            &&& got->Ok_0.catalog_hash == hash
            &&& got->Ok_0.names == Seq::<Seq<char>>::empty()
            &&& forall|s: Seq<char>| #[trigger]
                got->Ok_0.entries.dom().contains(s) <==> keys.contains(s)
            &&& forall|j: int|
                0 <= j < keys.len() ==> stored_row(
                    data,
                    got->Ok_0.data_off,
                    got->Ok_0.entries[#[trigger] keys[j]],
                ) == rows[j] && entry_inside(
                    data.len() as int,
                    got->Ok_0.data_off,
                    got->Ok_0.entries[keys[j]],
                )
        }),
{
    let n = rows.len() as int;
    let index = enc_index(keys, rows, n);
    let data = enc_model(magic, version, hash, keys, rows);
    let off = (HEADER_SIZE + index.len()) as u32;
    lemma_header(magic, version, hash, keys, rows);
    lemma_parse_entries(data, 32, keys, rows, n);
    lemma_written_entries(keys, rows, n);
    assert(keys.take(n) =~= keys);
    assert(parse_font_names(data, 32, 0) == Ok::<(Seq<Seq<char>>, int), ModelError>(
        (Seq::empty(), 32),
    ));
    assert forall|j: int| 0 <= j < keys.len() implies stored_row(
        data,
        off,
        written_entries(keys, rows, n)[#[trigger] keys[j]],
    ) == rows[j] && entry_inside(data.len() as int, off, written_entries(keys, rows, n)[keys[j]]) by {
        lemma_row_stands(data, 32 + index.len() as int, rows, n, j);
        lemma_data_monotone(rows, j + 1, n);
        lemma_stored_row(data, off, enc_data(rows, j).len() as int, rows[j]);
    }
}

// --- The format ---

/// The first number that is no character is told, and none where all are.
pub proof fn law_first_bad(data: Seq<u8>, p: int, n: int)
    ensures
        first_bad(data, p, n) is None <==> forall|i: int|
            0 <= i < n ==> is_char_code(#[trigger] get32(data, p + 4 * i)),
        first_bad(data, p, n) matches Some(u) ==> exists|i: int|
            {
                &&& 0 <= i < n
                &&& u == #[trigger] get32(data, p + 4 * i)
                &&& !is_char_code(u)
                &&& forall|j: int| 0 <= j < i ==> is_char_code(#[trigger] get32(data, p + 4 * j))
            },
    decreases n,
{
    if n > 0 {
        law_first_bad(data, p, n - 1);
        if first_bad(data, p, n - 1) is Some {
            let u = first_bad(data, p, n - 1)->0;
            let i = choose|i: int|
                {
                    &&& 0 <= i < n - 1
                    &&& u == #[trigger] get32(data, p + 4 * i)
                    &&& !is_char_code(u)
                    &&& forall|j: int| 0 <= j < i ==> is_char_code(#[trigger] get32(data, p + 4 * j))
                };
            assert(get32(data, p + 4 * i) == u && 0 <= i < n);
        } else {
            assert(get32(data, p + 4 * (n - 1)) == get32(data, p + 4 * (n - 1)));
            assert forall|i: int| first_bad(data, p, n) is None && 0 <= i < n implies is_char_code(
                #[trigger] get32(data, p + 4 * i),
            ) by {
                if i == n - 1 {
                    assert(p + 4 * i == p + 4 * (n - 1));
                }
            }
        }
    }
}

/// A file of a model begins with its mark, its version with the mark of an index, the hash of
/// its catalog, how many names and sequences it has, and where its index and its numbers begin;
/// the names stand behind these 32 bytes.
pub proof fn law_model_header(data: Seq<u8>, magic: Seq<u8>)
    requires
        magic.len() == 4,
    ensures
        data.len() < 32 ==> parse_model(data, magic) == Err::<ParsedModel, ModelError>(
            ModelError::TooSmall,
        ),
        data.len() >= 32 && data.take(4) != magic ==> parse_model(data, magic) == Err::<
            ParsedModel,
            ModelError,
        >(
            ModelError::BadMagic {
                expected: Magic(magic[0], magic[1], magic[2], magic[3]),
                found: Magic(data[0], data[1], data[2], data[3]),
            },
        ),
        data.len() >= 32 && data.take(4) == magic && get32(data, 4) < 0x8000_0000 ==> parse_model(
            data,
            magic,
        ) == Err::<ParsedModel, ModelError>(ModelError::NotIndexed(get32(data, 4))),
        parse_model(data, magic) matches Ok(m) ==> {
            &&& data.len() >= 32 && data.take(4) == magic && get32(data, 4) >= 0x8000_0000
            &&& m.catalog_hash == get64(data, 8)
            &&& m.data_off == get32(data, 28)
            &&& parse_font_names(data, 32, get32(data, 16) as int) matches Ok((names, _))
                && m.names == names
            &&& parse_entries(data, get32(data, 24) as int, get32(data, 20) as int) matches Ok(
                (entries, _),
            ) && m.entries == entries
        },
{
    let v = get32(data, 4);
    assert(v & 0x8000_0000u32 == 0 <==> v < 0x8000_0000u32) by (bit_vector);
    if data.len() >= 32 {
        let d = data.take(4);
        if d == magic {
            assert(d[0] == data[0] && d[1] == data[1] && d[2] == data[2] && d[3] == data[3]);
        } else {
            assert(magic_of(data) != magic_of(magic)) by {
                if magic_of(data) == magic_of(magic) {
                    assert(d =~= magic);
                }
            }
        }
    }
}

/// The record of a sequence holds the number and the codes of its characters, and then eight
/// numbers: how many weights there are and where they begin, how many glyphs there are and where
/// their numbers and their vectors begin, how long a vector is, the spread, and the median
/// distance.
pub proof fn law_entry_record(data: Seq<u8>, p: int)
    ensures
        parse_entry(data, p) matches Ok((seq, e, next)) ==> {
            let n = get32(data, p) as int;
            let q = p + 4 + 4 * n;
            &&& seq.len() == n && next == q + 32 && next <= data.len()
            &&& forall|i: int| 0 <= i < n ==> #[trigger] seq[i] as u32 == get32(data, p + 4 + 4 * i)
            &&& e.n_weights == get32(data, q) && e.weights_off == get32(data, q + 4)
            &&& e.n_centroids == get32(data, q + 8) && e.gids_off == get32(data, q + 12)
            &&& e.vecs_off == get32(data, q + 16) && e.vec_dim == get32(data, q + 20)
            &&& e.sigma_sq == get32(data, q + 24) && e.med_nn == get32(data, q + 28)
        },
        parse_entry(data, p) is Ok <==> p + 4 <= data.len() && p + 36 + 4 * get32(data, p)
            <= data.len() && forall|i: int|
            0 <= i < get32(data, p) ==> is_char_code(#[trigger] get32(data, p + 4 + 4 * i)),
        parse_entry(data, p) == Err::<(Seq<char>, IndexedEntry, int), ModelError>(
            ModelError::EntryIndex,
        ) <==> p + 4 > data.len() || p + 36 + 4 * get32(data, p) > data.len(),
{
    let n = get32(data, p) as int;
    law_first_bad(data, p + 4, n);
    if parse_entry(data, p) is Ok {
        let seq = parse_entry(data, p)->Ok_0.0;
        assert forall|i: int| 0 <= i < n implies #[trigger] seq[i] as u32 == get32(
            data,
            p + 4 + 4 * i,
        ) by {
            assert(is_char_code(get32(data, p + 4 + 4 * i)));
            assert(seq[i] == get32(data, p + 4 + 4 * i) as char);
        }
    }
}

/// The numbers of a sequence are taken from behind where the numbers of the file begin: its
/// weights, the numbers of its glyphs, and their vectors one after the other.
pub proof fn law_stored_row(data: Seq<u8>, base: u32, e: IndexedEntry, i: int)
    ensures
        ({
            let r = stored_row(data, base, e);
            &&& r.weights.len() == e.n_weights && r.ids.len() == e.n_centroids && r.vecs.len()
                == e.n_centroids
            &&& 0 <= i < e.n_weights ==> r.weights[i] == get32(data, base + e.weights_off + 4 * i)
            &&& 0 <= i < e.n_centroids ==> r.ids[i] == get32(data, base + e.gids_off + 4 * i)
            &&& 0 <= i < e.n_centroids ==> r.vecs[i] == get32s(
                data,
                base + e.vecs_off + 4 * (i * e.vec_dim),
                e.vec_dim as int,
            )
            &&& r.sigma_sq == e.sigma_sq && r.med_nn == e.med_nn
        }),
{
}

/// Numbers lie in a file if there are none, or if their last byte is one of its bytes.
pub proof fn law_inside(len: int, base: u32, off: u32, n: int)
    ensures
        inside(len, base, off, n) <==> n <= 0 || base + off + 4 * n - 1 < len,
{
}

} // verus!
