//! Putting the files of trained weights together, one sequence after the other. The numbers come
//! from outside; what is decided here is which sequences get an entry and what it looks like.

use vstd::prelude::*;
use crate::embedders::{
    are_lda_entries, is_lda, lda_file, law_lda_file, law_written_fresh, EmbedderError, Projection,
};
use crate::features::FEAT_LEN;
use crate::float_bits::is_whole;
use crate::mapped_model::{copy_numbers, MmapNgramModel};
use crate::mlp::{
    enc_mlp, entry_rows, entry_seqs, glyphs_in, mlp_bytes, mlp_fits, parse_mlp, InferenceLinear,
    MlpCharNet, MlpEntry, NetRow, MLP_H1, MLP_H2,
};
use crate::ngram_model::{model_fits, ImageModel, NgramModel};
use crate::per_font::all_long;
use crate::text::slice_of;
use crate::training::{
    are_trained, class_ids, group_ids, is_grouping, is_lda_row, is_plan, law_grouping_unique,
    law_mlp_glyphs, lda_entry, lda_target_dims, plan_sequence, planned, GlyphGroup,
};
use crate::weights::{freshness_of, ClassifierKind, Freshness};

verus! {

/// The samples of a sequence show enough glyphs to tell apart.
pub open spec fn enough(groups: Seq<GlyphGroup>, min_fonts: usize) -> bool {
    groups.len() >= min_fonts && groups.len() >= 2
}

// --- Projections ---

/// What training gives for a sequence: the projection, and the projected mean of each glyph, in
/// ascending order of the glyphs.
pub struct LdaNumbers {
    pub projection: Vec<u32>,
    pub centroids: Vec<Vec<u32>>,
    pub sigma_sq: u32,
    pub med_nn: u32,
}

impl LdaNumbers {
    /// The numbers are those of `glyphs` glyphs in `dims` dimensions.
    pub open spec fn fits(&self, dims: int, glyphs: int) -> bool {
        &&& self.projection@.len() == dims * FEAT_LEN
        &&& self.centroids@.len() == glyphs
        &&& forall|i: int|
            0 <= i < self.centroids@.len() ==> (#[trigger] self.centroids@[i])@.len() == dims
    }
}

/// A file of projections in the making.
pub struct LdaTraining {
    pub dims: usize,
    pub min_fonts: usize,
    pub model: NgramModel,
    /// The sequences so far.
    pub seen: Ghost<Seq<Seq<char>>>,
}

/// The entry for a sequence with these groups and numbers.
pub open spec fn is_lda_entry(
    m: ImageModel,
    dims: int,
    groups: Seq<GlyphGroup>,
    x: LdaNumbers,
) -> bool {
    &&& is_lda_row(m.row(), dims)
    &&& m.row().weights.skip(1) == x.projection@
    &&& m.row().ids == group_ids(groups)
    &&& m.row().vecs == Seq::new(x.centroids@.len(), |i: int| x.centroids@[i]@)
    &&& m.row().sigma_sq == x.sigma_sq
    &&& m.row().med_nn == x.med_nn
}

fn with_glyphs(groups: &Vec<GlyphGroup>, vecs: Vec<Vec<u32>>) -> (r: Vec<(u32, Vec<u32>)>)
    requires
        vecs@.len() == groups@.len(),
    ensures
        r@.len() == groups@.len(),
        forall|i: int|
            0 <= i < r@.len() ==> (#[trigger] r@[i]).0 == groups@[i].id && r@[i].1@ == vecs@[i]@,
{
    let n: usize = groups.len();
    let mut r: Vec<(u32, Vec<u32>)> = Vec::new();
    for i in 0..n
        invariant
            n == groups@.len(),
            n == vecs@.len(),
            r@.len() == i,
            forall|k: int|
                0 <= k < i ==> (#[trigger] r@[k]).0 == groups@[k].id && r@[k].1@ == vecs@[k]@,
    {
        r.push((groups[i].id, copy_numbers(&vecs[i])));
    }
    r
}

impl LdaTraining {
    /// Every entry is one of a sequence that was seen, and a projection to `dims` dimensions.
    pub open spec fn wf(&self) -> bool {
        &&& self.dims < FEAT_LEN
        &&& self.model.wf()
        &&& forall|s: Seq<char>| #[trigger]
            self.model.entries@.dom().contains(s) ==> self.seen@.contains(s) && is_lda_row(
                self.model.entries@[s].row(),
                self.dims as int,
            )
    }

    /// A file without entries, for a catalog.
    pub fn new(catalog_hash: u64, lda_dims: usize, min_fonts: usize) -> (t: LdaTraining)
        ensures
            t.wf(),
            t.dims == (if lda_dims < FEAT_LEN - 1 {
                lda_dims as int
            } else {
                FEAT_LEN - 1
            }),
            t.min_fonts == min_fonts,
            t.model.catalog_hash == catalog_hash,
            t.seen@.len() == 0,
            t.model.entries@ == Map::<Seq<char>, ImageModel>::empty(),
    {
        LdaTraining {
            dims: lda_target_dims(lda_dims),
            min_fonts,
            model: NgramModel::new(catalog_hash),
            seen: Ghost(Seq::empty()),
        }
    }

    /// Adds a sequence with the glyphs of its samples. It gets an entry where its samples show
    /// enough glyphs and the numbers fit them; else it is passed over.
    pub fn add(&mut self, seq: Vec<char>, ids: &Vec<u32>, numbers: Option<LdaNumbers>) -> (added:
        bool)
        requires
            old(self).wf(),
        ensures
            final(self).wf(),
            final(self).dims == old(self).dims,
            final(self).min_fonts == old(self).min_fonts,
            final(self).model.catalog_hash == old(self).model.catalog_hash,
            final(self).seen@ == old(self).seen@.push(seq@),
            forall|groups: Seq<GlyphGroup>| #[trigger]
                is_grouping(ids@, groups) ==> (added <==> enough(groups, old(self).min_fonts)
                    && numbers is Some && numbers->0.fits(
                    old(self).dims as int,
                    groups.len() as int,
                )),
            !added ==> final(self).model.entries@ == old(self).model.entries@,
            added ==> exists|m: ImageModel, groups: Seq<GlyphGroup>|
                #![trigger is_lda_entry(m, old(self).dims as int, groups, numbers->0)]
                is_grouping(ids@, groups) && is_lda_entry(
                    m,
                    old(self).dims as int,
                    groups,
                    numbers->0,
                ) && final(self).model.entries@ == old(self).model.entries@.insert(seq@, m),
    {
        let ghost before = self.seen@;
        let ghost entries = self.model.entries@;
        let plan: Option<Vec<GlyphGroup>> = plan_sequence(ids, self.min_fonts);
        self.seen = Ghost(before.push(seq@));
        proof {
            assert forall|s: Seq<char>| before.contains(s) implies self.seen@.contains(s) by {
                let i = choose|i: int| 0 <= i < before.len() && before[i] == s;
                assert(self.seen@[i] == s);
            }
            assert(self.seen@[before.len() as int] == seq@);
            lemma_plan_decides(ids@, self.min_fonts, plan);
        }
        let groups: Vec<GlyphGroup> = match plan {
            None => {
                return false;
            },
            Some(g) => g,
        };
        let x: LdaNumbers = match numbers {
            None => {
                return false;
            },
            Some(x) => x,
        };
        let dims: usize = self.dims;
        assert(dims * FEAT_LEN <= 62 * 63);
        let fit: bool = x.projection.len() == dims * FEAT_LEN && x.centroids.len() == groups.len()
            && all_long(&x.centroids, dims);
        assert(fit == x.fits(dims as int, groups@.len() as int));
        if !fit {
            return false;
        }
        let ghost vecs = Seq::new(x.centroids@.len(), |i: int| x.centroids@[i]@);
        let centroids: Vec<(u32, Vec<u32>)> = with_glyphs(&groups, x.centroids);
        let m: ImageModel = lda_entry(dims, &x.projection, centroids, x.sigma_sq, x.med_nn);
        proof {
            assert(m.row().ids =~= group_ids(groups@));
            assert(m.row().vecs =~= vecs);
            assert(is_lda_entry(m, dims as int, groups@, numbers->0));
        }
        let ghost made = m;
        self.model.entries.insert(seq, m);
        proof {
            assert(self.model.entries@ == entries.insert(seq@, made));
            let rows = self.model.rows();
            assert forall|i: int| 0 <= i < rows.len() implies (#[trigger] rows[i]).wf() by {
                self.model.entries.lemma_entry(i);
                let s = self.model.entries.keys@[i]@;
                assert(self.model.entries@.dom().contains(s));
                assert(rows[i] == self.model.entries.values@[i].row());
                if s != seq@ {
                    assert(entries.dom().contains(s));
                    assert(is_lda_row(entries[s].row(), dims as int));
                }
            }
        }
        true
    }

    /// The bytes of the file, unless it would be too large for its format.
    pub fn finish(&self) -> (r: Option<Vec<u8>>)
        requires
            self.wf(),
        ensures
            r is Some <==> model_fits(self.model.key_seqs(), self.model.rows()),
            r is Some ==> r->0@ == lda_file(
                self.model.catalog_hash,
                self.model.key_seqs(),
                self.model.rows(),
            ),
    {
        if !self.model.fits() {
            return None;
        }
        let magic: [u8; 4] = ClassifierKind::Lda.magic();
        assert(magic@ =~= ClassifierKind::Lda.magic_bytes());
        Some(self.model.write_bin(&magic, ClassifierKind::Lda.version()))
    }
}

/// The file that training gives loads: with the hash of the catalog, an entry for each sequence
/// that got one and for no other one, and in each of them what was put into it: weights that
/// begin with the number of dimensions and hold a projection behind it, the glyphs and their
/// centroids. It is up to date for the catalog.
pub proof fn law_lda_training(
    t: LdaTraining,
    r: Result<(MmapNgramModel, Vec<Projection>), EmbedderError>,
)
    requires
        t.wf(),
        model_fits(t.model.key_seqs(), t.model.rows()),
        is_lda(lda_file(t.model.catalog_hash, t.model.key_seqs(), t.model.rows()), r),
    ensures
        r is Ok,
        r->Ok_0.0.sound(),
        r->Ok_0.0.catalog_hash == t.model.catalog_hash,
        forall|s: Seq<char>| #[trigger]
            r->Ok_0.0.entries@.dom().contains(s) <==> t.model.entries@.dom().contains(s),
        forall|s: Seq<char>| #[trigger]
            r->Ok_0.0.entries@.dom().contains(s) ==> {
                let w = r->Ok_0.0.row(s).weights;
                &&& r->Ok_0.0.row(s) == t.model.entries@[s].row()
                &&& t.seen@.contains(s)
                &&& w.len() == 1 + t.dims * FEAT_LEN
                &&& is_whole(w[0], t.dims as int)
            },
        freshness_of(
            ClassifierKind::Lda,
            Some(lda_file(t.model.catalog_hash, t.model.key_seqs(), t.model.rows())),
            Some(t.model.catalog_hash),
        ) == Freshness::Good,
{
    let keys = t.model.key_seqs();
    let rows = t.model.rows();
    let hash = t.model.catalog_hash;
    let dims = Seq::new(rows.len(), |i: int| t.dims as int);
    assert forall|i: int| 0 <= i < rows.len() implies 0 <= dims[i] < FEAT_LEN && is_lda_row(
        #[trigger] rows[i],
        dims[i],
    ) by {
        t.model.entries.lemma_entry(i);
        let s = t.model.entries.keys@[i]@;
        assert(t.model.entries@.dom().contains(s));
        assert(rows[i] == t.model.entries.values@[i].row());
    }
    assert(are_lda_entries(keys, rows, dims));
    law_lda_file(hash, keys, rows, dims, r);
    law_written_fresh(ClassifierKind::Lda, hash, keys, rows);
    let m = r->Ok_0.0;
    assert forall|s: Seq<char>| #[trigger] m.entries@.dom().contains(s) implies m.row(s)
        == t.model.entries@[s].row() && t.seen@.contains(s) && m.row(s).weights.len() == 1 + t.dims * FEAT_LEN && is_whole(
        m.row(s).weights[0],
        t.dims as int,
    ) by {
        assert(keys.contains(s));
        let j = choose|j: int| 0 <= j < keys.len() && keys[j] == s;
        assert(m.row(keys[j]) == rows[j]);
        assert(is_lda_row(rows[j], dims[j]));
        t.model.entries.lemma_entry(j);
        assert(t.model.entries@.dom().contains(s));
    }
}

// --- Networks ---

/// What training gives for a sequence: the layers of its network.
pub struct MlpLayers {
    pub fc1: InferenceLinear,
    pub fc2: InferenceLinear,
    pub fc3: InferenceLinear,
}

impl MlpLayers {
    /// The layers tell `glyphs` glyphs apart.
    pub open spec fn fits(&self, glyphs: int) -> bool {
        &&& self.fc1.wf() && self.fc1.rows == FEAT_LEN && self.fc1.cols == MLP_H1
        &&& self.fc2.wf() && self.fc2.rows == MLP_H1 && self.fc2.cols == MLP_H2
        &&& self.fc3.wf() && self.fc3.rows == MLP_H2 && self.fc3.cols == glyphs
    }
}

fn is_layer(l: &InferenceLinear, rows: usize, cols: usize) -> (r: bool)
    requires
        rows <= 0x1_0000,
        cols <= u32::MAX,
    ensures
        r == (l.wf() && l.rows == rows && l.cols == cols),
{
    assert(0 <= rows * cols <= 0x1_0000 * 0xffff_ffff) by (nonlinear_arith)
        requires
            0 <= rows <= 0x1_0000,
            0 <= cols <= 0xffff_ffff,
    ;
    l.rows == rows && l.cols == cols && l.w.len() as u64 == rows as u64 * cols as u64 && l.b.len()
        == cols
}

/// A file of networks in the making.
pub struct MlpTraining {
    pub min_fonts: usize,
    pub entries: Vec<MlpEntry>,
    /// The sequences so far.
    pub seqs: Ghost<Seq<Seq<char>>>,
    /// The glyphs of the samples of each sequence.
    pub ids: Ghost<Seq<Seq<u32>>>,
    /// The groups that each sequence was planned with.
    pub plans: Ghost<Seq<Option<Vec<GlyphGroup>>>>,
    /// The layers that training gave for each sequence.
    pub layers: Ghost<Seq<Option<MlpLayers>>>,
}

/// The network is made of the layers.
pub open spec fn has_layers(net: MlpCharNet, x: MlpLayers) -> bool {
    net.fc1 == x.fc1 && net.fc2 == x.fc2 && net.fc3 == x.fc3
}

/// The entry for a sequence with these groups and layers.
pub open spec fn is_mlp_entry(
    e: MlpEntry,
    seq: Seq<char>,
    groups: Seq<GlyphGroup>,
    x: MlpLayers,
) -> bool {
    e.seq@ == seq && has_layers(e.net, x) && e.net.class_map@ == group_ids(groups)
}

/// Each network is made of the layers of its sequence.
pub open spec fn have_layers(
    plans: Seq<Option<Vec<GlyphGroup>>>,
    layers: Seq<Option<MlpLayers>>,
    entries: Seq<MlpEntry>,
) -> bool {
    let at = planned(plans, plans.len() as int);
    forall|j: int|
        0 <= j < entries.len() ==> has_layers((#[trigger] entries[j]).net, layers[at[j]]->0)
            && layers[at[j]] is Some
}

/// What a network with these classes and layers holds.
pub open spec fn net_row(classes: Seq<u32>, x: MlpLayers) -> NetRow {
    NetRow {
        classes,
        w1: x.fc1.w@,
        b1: x.fc1.b@,
        w2: x.fc2.w@,
        b2: x.fc2.b@,
        w3: x.fc3.w@,
        b3: x.fc3.b@,
    }
}

impl MlpTraining {
    /// There is one network for each sequence whose samples show enough glyphs, made of the
    /// layers that were trained for it.
    pub open spec fn wf(&self) -> bool {
        &&& self.ids@.len() == self.seqs@.len()
        &&& self.plans@.len() == self.seqs@.len()
        &&& self.layers@.len() == self.seqs@.len()
        &&& forall|i: int|
            0 <= i < self.plans@.len() ==> is_plan(
                self.ids@[i],
                self.min_fonts,
                #[trigger] self.plans@[i],
            )
        &&& are_trained(self.seqs@, self.plans@, self.entries@)
        &&& have_layers(self.plans@, self.layers@, self.entries@)
        &&& mlp_fits(entry_seqs(self.entries@), entry_rows(self.entries@))
        &&& forall|i: int|
            0 <= i < self.entries@.len() ==> (#[trigger] entry_rows(self.entries@)[i]).wf()
    }

    /// A file without networks.
    pub fn new(min_fonts: usize) -> (t: MlpTraining)
        ensures
            t.wf(),
            t.min_fonts == min_fonts,
            t.entries@.len() == 0,
            t.seqs@.len() == 0,
            t.ids@.len() == 0,
            t.layers@.len() == 0,
    {
        MlpTraining {
            min_fonts,
            entries: Vec::new(),
            seqs: Ghost(Seq::empty()),
            ids: Ghost(Seq::empty()),
            plans: Ghost(Seq::empty()),
            layers: Ghost(Seq::empty()),
        }
    }

    /// The network of a sequence can be kept.
    pub open spec fn can_keep(
        &self,
        seq: Seq<char>,
        glyphs: int,
        layers: Option<MlpLayers>,
    ) -> bool {
        &&& layers is Some && layers->0.fits(glyphs)
        &&& seq.len() <= u32::MAX
        &&& glyphs <= u32::MAX
        &&& self.entries@.len() < u32::MAX
    }

    /// Adds a sequence with the glyphs of its samples. Where these are enough, the sequence gets
    /// the network; else it is passed over. Nothing is added where a network is due and there is
    /// none that fits.
    pub fn add(&mut self, seq: Vec<char>, ids: &Vec<u32>, layers: Option<MlpLayers>) -> (added:
        bool)
        requires
            old(self).wf(),
        ensures
            final(self).wf(),
            final(self).min_fonts == old(self).min_fonts,
            forall|groups: Seq<GlyphGroup>| #[trigger]
                is_grouping(ids@, groups) ==> (added <==> (enough(groups, old(self).min_fonts)
                    ==> old(self).can_keep(seq@, groups.len() as int, layers))),
            added ==> final(self).seqs@ == old(self).seqs@.push(seq@),
            added ==> final(self).ids@ == old(self).ids@.push(ids@),
            added ==> final(self).layers@ == old(self).layers@.push(layers),
            forall|groups: Seq<GlyphGroup>| #[trigger]
                is_grouping(ids@, groups) && added && enough(groups, old(self).min_fonts)
                    ==> exists|e: MlpEntry| #[trigger]
                    is_mlp_entry(e, seq@, groups, layers->0) && final(self).entries@ == old(
                        self,
                    ).entries@.push(e),
            forall|groups: Seq<GlyphGroup>| #[trigger]
                is_grouping(ids@, groups) && added && !enough(groups, old(self).min_fonts)
                    ==> final(self).entries@ == old(self).entries@,
            !added ==> *final(self) == *old(self),
    {
        let plan: Option<Vec<GlyphGroup>> = plan_sequence(ids, self.min_fonts);
        let ghost n = self.plans@.len() as int;
        let ghost plans = self.plans@.push(plan);
        proof {
            lemma_plan_decides(ids@, self.min_fonts, plan);
            lemma_planned_push(self.plans@, plan, n);
        }
        match plan {
            None => {},
            Some(groups) => {
                let k: usize = groups.len();
                if k as u64 > 0xffff_ffff || seq.len() as u64 > 0xffff_ffff
                    || self.entries.len() as u64 >= 0xffff_ffff {
                    return false;
                }
                let x: MlpLayers = match layers {
                    None => {
                        return false;
                    },
                    Some(x) => x,
                };
                if !is_layer(&x.fc1, FEAT_LEN, MLP_H1) || !is_layer(&x.fc2, MLP_H1, MLP_H2)
                    || !is_layer(&x.fc3, MLP_H2, k) {
                    return false;
                }
                let class_map: Vec<u32> = class_ids(&groups);
                let net: MlpCharNet = MlpCharNet { fc1: x.fc1, fc2: x.fc2, fc3: x.fc3, class_map };
                let ghost old_entries = self.entries@;
                let ghost kept = net;
                let entry: MlpEntry = MlpEntry { seq: copy_chars(&seq), net };
                let ghost made = entry;
                self.entries.push(entry);
                proof {
                    let e = self.entries@;
                    assert(e == old(self).entries@.push(made));
                    assert forall|g: Seq<GlyphGroup>| #[trigger]
                        is_grouping(ids@, g) implies is_mlp_entry(made, seq@, g, layers->0) by {}
                    assert(e.len() == old_entries.len() + 1);
                    assert(kept.row().wf());
                    assert forall|j: int| 0 <= j < old_entries.len() implies entry_rows(e)[j]
                        == entry_rows(old_entries)[j] && entry_seqs(e)[j] == entry_seqs(
                        old_entries,
                    )[j] by {}
                    assert(entry_rows(e)[old_entries.len() as int] == kept.row());
                    assert(entry_seqs(e)[old_entries.len() as int] == seq@);
                }
            },
        }
        proof {
            let seqs = self.seqs@.push(seq@);
            let at = planned(plans, n + 1);
            let before = planned(self.plans@, n);
            assert forall|j: int| 0 <= j < at.len() implies (#[trigger] self.entries@[j]).seq@
                == seqs[at[j]] && self.entries@[j].net.class_map@ == group_ids(
                plans[at[j]]->0@,
) by {
                if j < before.len() {
                    lemma_planned_range(self.plans@, n, j);
                    assert(at[j] == before[j]);
                    assert(self.entries@[j].seq@ == self.seqs@[before[j]]);
                }
            }
            assert(at.len() == self.entries@.len());
            assert(are_trained(seqs, plans, self.entries@));
            let all = self.layers@.push(layers);
            assert forall|j: int| 0 <= j < self.entries@.len() implies has_layers(
                (#[trigger] self.entries@[j]).net,
                all[at[j]]->0,
            ) && all[at[j]] is Some by {
                if j < before.len() {
                    lemma_planned_range(self.plans@, n, j);
                    assert(at[j] == before[j]);
                    assert(self.entries@[j] == old(self).entries@[j]);
                }
            }
            assert forall|i: int| 0 <= i < plans.len() implies is_plan(
                self.ids@.push(ids@)[i],
                self.min_fonts,
                #[trigger] plans[i],
            ) by {
                if i < n {
                    assert(is_plan(self.ids@[i], self.min_fonts, self.plans@[i]));
                }
            }
        }
        self.seqs = Ghost(self.seqs@.push(seq@));
        self.ids = Ghost(self.ids@.push(ids@));
        self.plans = Ghost(plans);
        self.layers = Ghost(self.layers@.push(layers));
        true
    }

    /// The bytes of the file.
    pub fn finish(&self) -> (out: Vec<u8>)
        requires
            self.wf(),
        ensures
            out@ == enc_mlp(entry_seqs(self.entries@), entry_rows(self.entries@)),
    {
        mlp_bytes(&self.entries)
    }
}

fn copy_chars(v: &Vec<char>) -> (r: Vec<char>)
    ensures
        r@ == v@,
{
    let r: Vec<char> = slice_of(v, 0, v.len());
    assert(r@ =~= v@);
    r
}

proof fn lemma_plan_decides(ids: Seq<u32>, min_fonts: usize, plan: Option<Vec<GlyphGroup>>)
    requires
        is_plan(ids, min_fonts, plan),
    ensures
        forall|g: Seq<GlyphGroup>| #[trigger]
            is_grouping(ids, g) ==> (plan is Some <==> enough(g, min_fonts)) && (plan is Some
                ==> plan->0@.len() == g.len() && group_ids(plan->0@) == group_ids(g)),
{
    assert forall|g: Seq<GlyphGroup>| #[trigger] is_grouping(ids, g) implies (plan is Some
        <==> enough(g, min_fonts)) && (plan is Some ==> plan->0@.len() == g.len() && group_ids(
        plan->0@,
    ) == group_ids(g)) by {
        if plan is Some {
            law_grouping_unique(ids, plan->0@, g);
            assert(group_ids(plan->0@) =~= group_ids(g));
        } else {
            let few = choose|few: Seq<GlyphGroup>| #[trigger]
                is_grouping(ids, few) && (few.len() < min_fonts || few.len() < 2);
            law_grouping_unique(ids, few, g);
        }
    }
}

proof fn lemma_planned_push(
    plans: Seq<Option<Vec<GlyphGroup>>>,
    more: Option<Vec<GlyphGroup>>,
    n: int,
)
    requires
        0 <= n <= plans.len(),
    ensures
        planned(plans.push(more), n) == planned(plans, n),
    decreases n,
{
    if n > 0 {
        lemma_planned_push(plans, more, n - 1);
        assert(plans.push(more)[n - 1] == plans[n - 1]);
    }
}

proof fn lemma_planned_range(plans: Seq<Option<Vec<GlyphGroup>>>, n: int, j: int)
    requires
        0 <= n <= plans.len(),
        0 <= j < planned(plans, n).len(),
    ensures
        0 <= planned(plans, n)[j] < n,
    decreases n,
{
    if n > 0 {
        if j < planned(plans, n - 1).len() {
            lemma_planned_range(plans, n - 1, j);
        }
    }
}

/// The file that training gives is read back with the network of each sequence whose samples
/// show enough glyphs: its classes are these glyphs, and its weights and biases those that were
/// trained. A sequence whose samples show less than two glyphs, or less than were asked for, has
/// no network.
pub proof fn law_mlp_training(t: MlpTraining, k: int, groups: Seq<GlyphGroup>)
    requires
        t.wf(),
        t.seqs@.no_duplicates(),
        0 <= k < t.seqs@.len(),
        is_grouping(t.ids@[k], groups),
    ensures
        ({
            let got = parse_mlp(enc_mlp(entry_seqs(t.entries@), entry_rows(t.entries@)));
            let s = t.seqs@[k];
            &&& got is Ok
            &&& glyphs_in(got->Ok_0, s) == (if enough(groups, t.min_fonts) {
                groups.len()
            } else {
                0
            })
            &&& got->Ok_0.dom().contains(s) <==> enough(groups, t.min_fonts)
            &&& enough(groups, t.min_fonts) ==> t.layers@[k] is Some && got->Ok_0[s] == net_row(
                group_ids(groups),
                t.layers@[k]->0,
            )
        }),
{
    law_mlp_glyphs(t.seqs@, t.ids@, t.min_fonts, t.plans@, t.entries@, k, groups);
    if enough(groups, t.min_fonts) {
        let got = parse_mlp(enc_mlp(entry_seqs(t.entries@), entry_rows(t.entries@)))->Ok_0;
        let at = planned(t.plans@, t.plans@.len() as int);
        let j = choose|j: int|
            0 <= j < t.entries@.len() && at[j] == k && got[t.seqs@[k]] == (
            #[trigger] t.entries@[j]).net.row() && t.entries@[j].net.class_map@ == group_ids(
                groups,
            );
        assert(has_layers(t.entries@[j].net, t.layers@[at[j]]->0));
    }
}

/// Glyphs are enough if there are two of them at least, and not fewer than fonts are asked for.
pub proof fn law_enough(groups: Seq<GlyphGroup>, min_fonts: usize)
    ensures
        groups.len() <= 1 ==> !enough(groups, min_fonts),
        groups.len() < min_fonts ==> !enough(groups, min_fonts),
        groups.len() >= 2 && min_fonts <= groups.len() ==> enough(groups, min_fonts),
{
}

/// The numbers of a projection fit if it has as many rows as dimensions, each as long as a
/// feature vector, and there is a centroid for each glyph with a number for each dimension. The
/// layers of a network fit if each takes as many numbers as the one before it gives: first a
/// feature vector, in the end a score for each glyph.
pub proof fn law_fits(x: LdaNumbers, dims: int, glyphs: int, l: MlpLayers, i: int)
    ensures
        x.fits(dims, glyphs) ==> x.projection@.len() == dims * FEAT_LEN && x.centroids@.len()
            == glyphs && (0 <= i < glyphs ==> x.centroids@[i]@.len() == dims),
        l.fits(glyphs) ==> l.fc1.rows == FEAT_LEN && l.fc2.rows == l.fc1.cols && l.fc3.rows
            == l.fc2.cols && l.fc3.cols == glyphs && l.fc1.cols == MLP_H1 && l.fc2.cols == MLP_H2,
{
}


/// A network can be kept if there is one that fits and its sequence, its glyphs and one more
/// entry can be counted in four bytes.
pub proof fn law_can_keep(t: MlpTraining, seq: Seq<char>, glyphs: int, layers: Option<MlpLayers>)
    ensures
        t.can_keep(seq, glyphs, layers) ==> layers is Some && layers->0.fits(glyphs),
        layers is Some && layers->0.fits(glyphs) ==> (t.can_keep(seq, glyphs, layers)
            <==> seq.len() < 0x1_0000_0000 && glyphs < 0x1_0000_0000 && t.entries@.len() + 1
            < 0x1_0000_0000),
{
}


} // verus!
