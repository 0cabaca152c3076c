//! Models in memory or in a file, and what changes them.

use vstd::prelude::*;
use crate::mapped_model::MmapNgramModel;
use crate::ngram_model::{ImageModel, ModelRow, NgramModel};
use crate::ranking::{is_nearest, median, nearest, TINY_BITS};
use crate::sorting::is_kth;
use crate::text::slice_of;

verus! {

/// A model in memory, or one that is read from its bytes.
pub enum CharModelStore {
    Owned(NgramModel),
    Mmap(MmapNgramModel),
}

/// A row without weights and glyphs.
pub open spec fn empty_row() -> ModelRow {
    ModelRow {
        weights: Seq::empty(),
        ids: Seq::empty(),
        vecs: Seq::empty(),
        sigma_sq: 0,
        med_nn: 0,
    }
}

/// A row with one more glyph.
pub open spec fn with_glyph(r: ModelRow, id: u32, v: Seq<u32>) -> ModelRow {
    ModelRow { ids: r.ids.push(id), vecs: r.vecs.push(v), ..r }
}

/// A median replaces a scale that was stored before, unless it counts as zero.
pub open spec fn replaced(before: u32, m: u32) -> u32 {
    if m > TINY_BITS {
        m
    } else {
        before
    }
}

/// `nn` holds the distance of each row to its nearest neighbour.
pub open spec fn are_nearest(t: Seq<Vec<u32>>, nn: Seq<u32>) -> bool {
    &&& nn.len() == t.len()
    &&& forall|i: int| 0 <= i < t.len() ==> is_nearest(t[i]@, i, #[trigger] nn[i])
}

impl ImageModel {
    /// Sets the scale to the median of the squared distances between pairs of centroids.
    /// With less than two centroids there is none, and a median that counts as zero is
    /// not taken.
    pub fn compute_sigma_sq(&mut self, dists: &Vec<u32>)
        requires
            old(self).centroids@.len() >= 2 ==> dists@.len() > 0,
        ensures
            old(self).centroids@.len() < 2 ==> *final(self) == *old(self),
            final(self).row() == (ModelRow {
                sigma_sq: final(self).sigma_sq,
                ..old(self).row()
            }),
            old(self).centroids@.len() >= 2 ==> exists|m: u32| #[trigger]
                is_kth(dists@, dists@.len() as int / 2, m as int) && final(self).sigma_sq
                    == replaced(old(self).sigma_sq, m),
    {
        if self.centroids.len() >= 2 {
            let m: u32 = median(dists);
            if m > TINY_BITS {
                self.sigma_sq = m;
            }
            assert(is_kth(dists@, dists@.len() as int / 2, m as int));
        }
        assert(self.row().ids =~= old(self).row().ids);
        assert(self.row().vecs =~= old(self).row().vecs);
    }

    /// Sets the median distance of a centroid to its nearest neighbour, from the table of
    /// the distances between centroids.
    pub fn compute_med_nn(&mut self, dists: &Vec<Vec<u32>>)
        requires
            dists@.len() == old(self).centroids@.len(),
        ensures
            old(self).centroids@.len() < 2 ==> *final(self) == *old(self),
            final(self).row() == (ModelRow { med_nn: final(self).med_nn, ..old(self).row() }),
            old(self).centroids@.len() >= 2 ==> exists|nn: Seq<u32>, m: u32|
                #![trigger are_nearest(dists@, nn), is_kth(nn, nn.len() as int / 2, m as int)]
                are_nearest(dists@, nn) && is_kth(nn, nn.len() as int / 2, m as int)
                    && final(self).med_nn == replaced(old(self).med_nn, m),
    {
        let n: usize = self.centroids.len();
        if n >= 2 {
            let mut nn: Vec<u32> = Vec::new();
            for i in 0..n
                invariant
                    n == dists@.len(),
                    nn@.len() == i,
                    forall|k: int| 0 <= k < i ==> is_nearest(dists@[k]@, k, #[trigger] nn@[k]),
            {
                nn.push(nearest(&dists[i], i));
            }
            let m: u32 = median(&nn);
            if m > TINY_BITS {
                self.med_nn = m;
            }
            assert(are_nearest(dists@, nn@));
            assert(is_kth(nn@, nn@.len() as int / 2, m as int));
        }
        assert(self.row().ids =~= old(self).row().ids);
        assert(self.row().vecs =~= old(self).row().vecs);
    }
}

impl NgramModel {
    /// Adds a glyph to a sequence, which need not be there before.
    pub fn add_glyph(&mut self, glyph_id: u32, seq: &Vec<char>, embedded: Vec<u32>)
        requires
            old(self).entries.wf(),
        ensures
            final(self).entries.wf(),
            final(self).catalog_hash == old(self).catalog_hash,
            final(self).entries@.dom() == old(self).entries@.dom().insert(seq@),
            final(self).entries@[seq@].row() == with_glyph(
                if old(self).entries@.dom().contains(seq@) {
                    old(self).entries@[seq@].row()
                } else {
                    empty_row()
                },
                glyph_id,
                embedded@,
            ),
            forall|k: Seq<char>|
                k != seq@ && #[trigger] old(self).entries@.dom().contains(k)
                    ==> final(self).entries@[k] == old(self).entries@[k],
    {
        let ghost before = self.entries@;
        let mut cm: ImageModel = match self.entries.get(seq) {
            Some(m) => copy_model(m),
            None => ImageModel {
                weights: Vec::new(),
                centroids: Vec::new(),
                sigma_sq: 0,
                med_nn: 0,
            },
        };
        let ghost row = cm.row();
        proof {
            if !before.dom().contains(seq@) {
                assert(row =~= empty_row());
            }
        }
        let ghost vec = embedded@;
        cm.centroids.push((glyph_id, embedded));
        assert(cm.row() =~= with_glyph(row, glyph_id, vec));
        let key: Vec<char> = slice_of(seq, 0, seq.len());
        assert(key@ =~= seq@);
        self.entries.insert(key, cm);
        assert(self.entries@.dom() =~= before.dom().insert(seq@));
    }
}

fn copy_u32s(v: &Vec<u32>) -> (r: Vec<u32>)
    ensures
        r@ == v@,
{
    let n: usize = v.len();
    let mut r: Vec<u32> = Vec::new();
    for i in 0..n
        invariant
            n == v@.len(),
            r@ == v@.take(i as int),
    {
        r.push(v[i]);
        assert(r@ =~= v@.take(i + 1));
    }
    assert(v@.take(n as int) =~= v@);
    r
}

fn copy_model(m: &ImageModel) -> (r: ImageModel)
    ensures
        r.row() == m.row(),
{
    let n: usize = m.centroids.len();
    let mut centroids: Vec<(u32, Vec<u32>)> = Vec::new();
    for i in 0..n
        invariant
            n == m.centroids@.len(),
            centroids@.len() == i,
            forall|k: int|
                0 <= k < i ==> (#[trigger] centroids@[k]).0 == m.centroids@[k].0
                    && centroids@[k].1@ == m.centroids@[k].1@,
    {
        let v: Vec<u32> = copy_u32s(&m.centroids[i].1);
        centroids.push((m.centroids[i].0, v));
    }
    let r = ImageModel {
        weights: copy_u32s(&m.weights),
        centroids,
        sigma_sq: m.sigma_sq,
        med_nn: m.med_nn,
    };
    assert(r.row() =~= m.row());
    r
}

impl CharModelStore {
    pub open spec fn wf(&self) -> bool {
        match self {
            CharModelStore::Owned(m) => m.wf(),
            CharModelStore::Mmap(m) => m.wf(),
        }
    }

    /// All models are there.
    pub open spec fn sound(&self) -> bool {
        match self {
            CharModelStore::Owned(m) => m.wf(),
            CharModelStore::Mmap(m) => m.sound(),
        }
    }

    /// Whether all models are there: those of a file may lie behind its end.
    pub fn is_sound(&self) -> (r: bool)
        requires
            self.wf(),
        ensures
            r == self.sound(),
    {
        match self {
            CharModelStore::Owned(_) => true,
            CharModelStore::Mmap(m) => m.is_sound(),
        }
    }

    /// The sequences that have a model.
    pub open spec fn sequences(&self) -> Set<Seq<char>> {
        match self {
            CharModelStore::Owned(m) => m.entries@.dom(),
            CharModelStore::Mmap(m) => m.entries@.dom(),
        }
    }

    /// The row of a sequence.
    pub open spec fn row(&self, key: Seq<char>) -> ModelRow {
        match self {
            CharModelStore::Owned(m) => m.entries@[key].row(),
            CharModelStore::Mmap(m) => m.row(key),
        }
    }

    pub open spec fn hash(&self) -> u64 {
        match self {
            CharModelStore::Owned(m) => m.catalog_hash,
            CharModelStore::Mmap(m) => m.catalog_hash,
        }
    }

    /// Two stores hold the same models.
    pub open spec fn same_models(&self, other: &CharModelStore) -> bool {
        &&& self.sequences() == other.sequences()
        &&& forall|k: Seq<char>| #[trigger]
            self.sequences().contains(k) ==> self.row(k) == other.row(k)
    }

    /// How many glyphs a sequence has.
    pub fn glyph_count(&self, seq: &Vec<char>) -> (n: usize)
        requires
            self.wf(),
        ensures
            n == (if self.sequences().contains(seq@) {
                self.row(seq@).ids.len()
            } else {
                0
            }),
    {
        match self {
            CharModelStore::Owned(m) => match m.entries.get(seq) {
                Some(cm) => cm.centroids.len(),
                None => 0,
            },
            CharModelStore::Mmap(m) => m.glyph_count(seq),
        }
    }

    /// Whether a sequence has a model with glyphs.
    pub fn has_sequence(&self, seq: &Vec<char>) -> (r: bool)
        requires
            self.wf(),
        ensures
            r == (self.sequences().contains(seq@) && self.row(seq@).ids.len() > 0),
    {
        self.glyph_count(seq) > 0
    }

    /// The hash of the font catalog that the model was trained on.
    pub fn catalog_hash(&self) -> (h: u64)
        ensures
            h == self.hash(),
    {
        match self {
            CharModelStore::Owned(m) => m.catalog_hash,
            CharModelStore::Mmap(m) => m.catalog_hash,
        }
    }

    /// The same models in memory.
    pub fn into_owned(self) -> (m: NgramModel)
        requires
            self.sound(),
        ensures
            m.wf(),
            self.same_models(&CharModelStore::Owned(m)),
            m.catalog_hash == self.hash(),
    {
        match self {
            CharModelStore::Owned(m) => m,
            CharModelStore::Mmap(m) => m.to_owned_model(),
        }
    }

    /// Brings the models into memory.
    pub fn ensure_owned(self) -> (r: CharModelStore)
        requires
            self.sound(),
        ensures
            r is Owned,
            r.wf(),
            self.same_models(&r),
            r.hash() == self.hash(),
    {
        CharModelStore::Owned(self.into_owned())
    }

    /// The same models with another catalog hash; they are in memory then.
    pub fn set_catalog_hash(self, hash: u64) -> (r: CharModelStore)
        requires
            self.sound(),
        ensures
            r is Owned,
            r.wf(),
            self.same_models(&r),
            r.hash() == hash,
    {
        let before: NgramModel = self.into_owned();
        let ghost rows = before.rows();
        let m = NgramModel { entries: before.entries, catalog_hash: hash };
        assert(m.rows() == rows);
        assert(m.wf());
        CharModelStore::Owned(m)
    }
}

/// A median above `1e-30` takes the place of what was stored; one up to that does not. Either
/// way the outcome is one of the two.
pub proof fn law_replaced(before: u32, m: u32)
    ensures
        m > 0x0da2_4260 ==> replaced(before, m) == m,
        m <= 0x0da2_4260 ==> replaced(before, m) == before,
{
}

/// A glyph is added behind those of the row with its vector; all else in the row stays.
pub proof fn law_with_glyph(r: ModelRow, id: u32, v: Seq<u32>, i: int)
    ensures
        ({
            let s = with_glyph(r, id, v);
            &&& s.ids.len() == r.ids.len() + 1
            &&& s.vecs.len() == r.vecs.len() + 1
            &&& s.ids.last() == id
            &&& s.vecs.last() == v
            &&& 0 <= i < r.ids.len() ==> s.ids[i] == r.ids[i]
            &&& 0 <= i < r.vecs.len() ==> s.vecs[i] == r.vecs[i]
            &&& s.weights == r.weights
            &&& s.sigma_sq == r.sigma_sq
            &&& s.med_nn == r.med_nn
        }),
        empty_row().ids.len() == 0,
        empty_row().vecs.len() == 0,
        empty_row().weights.len() == 0,
        empty_row().sigma_sq == 0,
        empty_row().med_nn == 0,
{
}


} // verus!
