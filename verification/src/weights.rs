//! Which classifier is built, from which weights, and when weights have to be trained anew.

use vstd::prelude::*;
use vstd::string::*;
use crate::bytes::{get32, get64, read32, read64};
use crate::cache::paths::{
    catalog_bin, fisher_weights_bin, lda_weights_bin, mahalanobis_weights_bin, mlp_weights_bin,
    triplet_weights_bin,
};
use crate::paths::join_path;
use crate::text::{
    chars_of, copy_of, decimal, has_prefix, is_space, is_white, joined, lines, lines_of, occurs_at,
    same_text, starts_with, text_of, to_decimal,
};

verus! {

// --- The kinds of classifiers ---

/// A classifier with weights of its own.
#[derive(Clone, Copy, Debug, PartialEq, Eq, Structural)]
pub enum ClassifierKind {
    Lda,
    Fisher,
    Triplet,
    Mahalanobis,
    Mlp,
}

/// What a classifier name stands for.
#[derive(Clone, Copy, Debug, PartialEq, Eq, Structural)]
pub enum ClassifierPlan {
    /// One classifier.
    Single(ClassifierKind),
    /// The linear discriminant classifier and the Fisher classifier with equal weights.
    Fusion,
    /// The correlation classifier, which has no weights.
    Zncc,
}

/// What a training run produces.
#[derive(Clone, Copy, Debug, PartialEq, Eq, Structural)]
pub struct TrainFlags {
    pub lda: bool,
    pub fisher: bool,
    pub mahalanobis: bool,
    pub mlp: bool,
}

impl ClassifierKind {
    pub open spec fn label_text(self) -> Seq<char> {
        match self {
            ClassifierKind::Lda => "LDA"@,
            ClassifierKind::Fisher => "Fisher"@,
            ClassifierKind::Triplet => "Triplet"@,
            ClassifierKind::Mahalanobis => "Mahalanobis"@,
            ClassifierKind::Mlp => "MLP"@,
        }
    }

    /// What the classifier is called in messages.
    pub fn label(&self) -> (s: String)
        ensures
            s@ == self.label_text(),
    {
        match self {
            ClassifierKind::Lda => copy_of("LDA"),
            ClassifierKind::Fisher => copy_of("Fisher"),
            ClassifierKind::Triplet => copy_of("Triplet"),
            ClassifierKind::Mahalanobis => copy_of("Mahalanobis"),
            ClassifierKind::Mlp => copy_of("MLP"),
        }
    }

    pub open spec fn file_version(self) -> u32 {
        match self {
            ClassifierKind::Lda => 8,
            ClassifierKind::Mlp => 2,
            _ => 3,
        }
    }

    /// The version of the weights format.
    pub fn version(&self) -> (v: u32)
        ensures
            v == self.file_version(),
    {
        match self {
            ClassifierKind::Lda => 8,
            ClassifierKind::Mlp => 2,
            _ => 3,
        }
    }

    pub open spec fn magic_bytes(self) -> Seq<u8> {
        match self {
            ClassifierKind::Lda => seq![0x4cu8, 0x44u8, 0x41u8, 0x43u8],
            ClassifierKind::Fisher => seq![0x46u8, 0x49u8, 0x53u8, 0x48u8],
            ClassifierKind::Triplet => seq![0x54u8, 0x52u8, 0x49u8, 0x50u8],
            ClassifierKind::Mahalanobis => seq![0x4du8, 0x41u8, 0x48u8, 0x41u8],
            ClassifierKind::Mlp => seq![0x4du8, 0x4cu8, 0x50u8, 0x43u8],
        }
    }

    /// The first bytes of the weights: `LDAC`, `FISH`, `TRIP`, `MAHA` or `MLPC`.
    pub fn magic(&self) -> (m: [u8; 4])
        ensures
            m@ == self.magic_bytes(),
    {
        let m: [u8; 4] = match self {
            ClassifierKind::Lda => [0x4c, 0x44, 0x41, 0x43],
            ClassifierKind::Fisher => [0x46, 0x49, 0x53, 0x48],
            ClassifierKind::Triplet => [0x54, 0x52, 0x49, 0x50],
            ClassifierKind::Mahalanobis => [0x4d, 0x41, 0x48, 0x41],
            ClassifierKind::Mlp => [0x4d, 0x4c, 0x50, 0x43],
        };
        assert(m@ =~= self.magic_bytes());
        m
    }

    pub open spec fn file_name(self) -> Seq<char> {
        match self {
            ClassifierKind::Lda => "lda-weights.bin"@,
            ClassifierKind::Fisher => "fisher-weights.bin"@,
            ClassifierKind::Triplet => "triplet-weights.bin"@,
            ClassifierKind::Mahalanobis => "mahalanobis-weights.bin"@,
            ClassifierKind::Mlp => "mlp-weights.bin"@,
        }
    }

    /// Where the weights are kept.
    pub fn default_path(&self, cache_dir: &str) -> (path: String)
        ensures
            path@ == join_path(cache_dir@, self.file_name()),
    {
        match self {
            ClassifierKind::Lda => default_lda_weights_path(cache_dir),
            ClassifierKind::Fisher => default_fisher_weights_path(cache_dir),
            ClassifierKind::Triplet => default_triplet_weights_path(cache_dir),
            ClassifierKind::Mahalanobis => default_mahalanobis_weights_path(cache_dir),
            ClassifierKind::Mlp => default_mlp_weights_path(cache_dir),
        }
    }

    pub open spec fn train_flags(self) -> TrainFlags {
        TrainFlags {
            lda: self is Lda,
            fisher: self is Fisher,
            mahalanobis: self is Mahalanobis,
            mlp: self is Mlp,
        }
    }

    /// What a training run for the weights produces. The triplet weights are what a run
    /// produces that is asked for nothing else.
    pub fn training(&self) -> (f: TrainFlags)
        ensures
            f == self.train_flags(),
    {
        let none = TrainFlags { lda: false, fisher: false, mahalanobis: false, mlp: false };
        match self {
            ClassifierKind::Lda => TrainFlags { lda: true, ..none },
            ClassifierKind::Fisher => TrainFlags { fisher: true, ..none },
            ClassifierKind::Triplet => none,
            ClassifierKind::Mahalanobis => TrainFlags { mahalanobis: true, ..none },
            ClassifierKind::Mlp => TrainFlags { mlp: true, ..none },
        }
    }
}

/// Where the linear discriminant weights are kept.
pub fn default_lda_weights_path(cache_dir: &str) -> (path: String)
    ensures
        path@ == join_path(cache_dir@, "lda-weights.bin"@),
{
    lda_weights_bin(cache_dir)
}

/// Where the Fisher weights are kept.
pub fn default_fisher_weights_path(cache_dir: &str) -> (path: String)
    ensures
        path@ == join_path(cache_dir@, "fisher-weights.bin"@),
{
    fisher_weights_bin(cache_dir)
}

/// Where the triplet weights are kept.
pub fn default_triplet_weights_path(cache_dir: &str) -> (path: String)
    ensures
        path@ == join_path(cache_dir@, "triplet-weights.bin"@),
{
    triplet_weights_bin(cache_dir)
}

/// Where the Mahalanobis weights are kept.
pub fn default_mahalanobis_weights_path(cache_dir: &str) -> (path: String)
    ensures
        path@ == join_path(cache_dir@, "mahalanobis-weights.bin"@),
{
    mahalanobis_weights_bin(cache_dir)
}

/// Where the network weights are kept.
pub fn default_mlp_weights_path(cache_dir: &str) -> (path: String)
    ensures
        path@ == join_path(cache_dir@, "mlp-weights.bin"@),
{
    mlp_weights_bin(cache_dir)
}

/// Where the font catalog is kept.
pub fn default_catalog_path(cache_dir: &str) -> (path: String)
    ensures
        path@ == join_path(cache_dir@, "catalog.bin"@),
{
    catalog_bin(cache_dir)
}

/// What a name stands for.
pub open spec fn plan_of(name: Seq<char>) -> Option<ClassifierPlan> {
    if name == "lda"@ {
        Some(ClassifierPlan::Single(ClassifierKind::Lda))
    } else if name == "perchar-fisher"@ {
        Some(ClassifierPlan::Single(ClassifierKind::Fisher))
    } else if name == "triplet"@ {
        Some(ClassifierPlan::Single(ClassifierKind::Triplet))
    } else if name == "mahalanobis"@ {
        Some(ClassifierPlan::Single(ClassifierKind::Mahalanobis))
    } else if name == "mlp"@ {
        Some(ClassifierPlan::Single(ClassifierKind::Mlp))
    } else if name == "fusion"@ {
        Some(ClassifierPlan::Fusion)
    } else if name == "zncc"@ {
        Some(ClassifierPlan::Zncc)
    } else {
        None
    }
}

/// What a classifier name stands for, or a message that there is none of this name.
pub fn build_classifier(classifier_name: &str) -> (r: Result<ClassifierPlan, String>)
    ensures
        match plan_of(classifier_name@) {
            Some(p) => r == Ok::<ClassifierPlan, String>(p),
            None => r is Err && r->Err_0@ == "Error: unknown classifier '"@ + classifier_name@
                + "'. Use 'lda', 'perchar-fisher', 'triplet', 'mahalanobis', 'mlp', 'fusion', or 'zncc'."@,
        },
{
    if same_text(classifier_name, "lda") {
        Ok(ClassifierPlan::Single(ClassifierKind::Lda))
    } else if same_text(classifier_name, "perchar-fisher") {
        Ok(ClassifierPlan::Single(ClassifierKind::Fisher))
    } else if same_text(classifier_name, "triplet") {
        Ok(ClassifierPlan::Single(ClassifierKind::Triplet))
    } else if same_text(classifier_name, "mahalanobis") {
        Ok(ClassifierPlan::Single(ClassifierKind::Mahalanobis))
    } else if same_text(classifier_name, "mlp") {
        Ok(ClassifierPlan::Single(ClassifierKind::Mlp))
    } else if same_text(classifier_name, "fusion") {
        Ok(ClassifierPlan::Fusion)
    } else if same_text(classifier_name, "zncc") {
        Ok(ClassifierPlan::Zncc)
    } else {
        let mut s: String = copy_of("Error: unknown classifier '");
        s.append(classifier_name);
        s.append(
            "'. Use 'lda', 'perchar-fisher', 'triplet', 'mahalanobis', 'mlp', 'fusion', or 'zncc'.",
        );
        Err(s)
    }
}

/// The classifiers of a plan, and whether an explicit weights file is meant for them.
pub open spec fn parts_of(plan: ClassifierPlan) -> Seq<(ClassifierKind, bool)> {
    match plan {
        ClassifierPlan::Single(k) => seq![(k, true)],
        ClassifierPlan::Fusion => seq![
            (ClassifierKind::Lda, true),
            (ClassifierKind::Fisher, false),
        ],
        ClassifierPlan::Zncc => seq![],
    }
}

/// The classifiers of a plan, and whether an explicit weights file is meant for them.
pub fn plan_parts(plan: ClassifierPlan) -> (r: Vec<(ClassifierKind, bool)>)
    ensures
        r@ == parts_of(plan),
{
    let mut v: Vec<(ClassifierKind, bool)> = Vec::new();
    match plan {
        ClassifierPlan::Single(k) => {
            v.push((k, true));
        },
        ClassifierPlan::Fusion => {
            v.push((ClassifierKind::Lda, true));
            v.push((ClassifierKind::Fisher, false));
        },
        ClassifierPlan::Zncc => {},
    }
    assert(v@ =~= parts_of(plan));
    v
}

/// The kind of weights that a classifier of this name saves; networks are not saved.
pub open spec fn saved_kind(name: Seq<char>) -> Option<ClassifierKind> {
    if name == "lda"@ {
        Some(ClassifierKind::Lda)
    } else if name == "perchar-fisher"@ || name == "fisher"@ {
        Some(ClassifierKind::Fisher)
    } else if name == "mahalanobis"@ {
        Some(ClassifierKind::Mahalanobis)
    } else if name == "triplet"@ {
        Some(ClassifierKind::Triplet)
    } else {
        None
    }
}

/// The kind of weights that a classifier of this name saves.
pub fn save_target(name: &str) -> (r: Option<ClassifierKind>)
    ensures
        r == saved_kind(name@),
{
    if same_text(name, "lda") {
        Some(ClassifierKind::Lda)
    } else if same_text(name, "perchar-fisher") || same_text(name, "fisher") {
        Some(ClassifierKind::Fisher)
    } else if same_text(name, "mahalanobis") {
        Some(ClassifierKind::Mahalanobis)
    } else if same_text(name, "triplet") {
        Some(ClassifierKind::Triplet)
    } else {
        None
    }
}

// --- Is a weights file good? ---

/// What is found of a weights file.
#[derive(Clone, Copy, Debug, PartialEq, Eq, Structural)]
pub enum Freshness {
    /// It can be loaded.
    Good,
    /// There is no file.
    Missing,
    /// The header is cut off.
    Short,
    /// It has this version, not the one that is wanted.
    Version(u32),
    /// It was trained on another catalog.
    OtherCatalog,
}

/// The version without the mark of indexed files.
pub open spec fn plain_version(v: u32) -> u32 {
    v & 0x7fff_ffff
}

/// How many bytes of a header have to be there.
pub open spec fn header_need(kind: ClassifierKind) -> int {
    if kind is Lda {
        16
    } else {
        8
    }
}

/// What is found of a weights file, which is compared with a catalog only where one is
/// given.
pub open spec fn freshness_of(
    kind: ClassifierKind,
    file: Option<Seq<u8>>,
    catalog: Option<u64>,
) -> Freshness {
    match file {
        None => Freshness::Missing,
        Some(data) => if data.len() < header_need(kind) {
            Freshness::Short
        } else if plain_version(get32(data, 4)) != kind.file_version() {
            Freshness::Version(plain_version(get32(data, 4)))
        } else {
            match catalog {
                None => Freshness::Good,
                Some(h) => if data.len() < 16 {
                    Freshness::Short
                } else if get64(data, 8) != h {
                    Freshness::OtherCatalog
                } else {
                    Freshness::Good
                },
            }
        },
    }
}

/// Looks at the header of a weights file.
pub fn check_weights(kind: ClassifierKind, file: Option<&[u8]>, catalog: Option<u64>) -> (r:
    Freshness)
    ensures
        r == freshness_of(
            kind,
            match file {
                Some(d) => Some(d@),
                None => None,
            },
            catalog,
        ),
{
    match file {
        None => Freshness::Missing,
        Some(data) => {
            let need: usize = match kind {
                ClassifierKind::Lda => 16,
                _ => 8,
            };
            if data.len() < need {
                return Freshness::Short;
            }
            let v: u32 = read32(data, 4) & 0x7fff_ffff;
            if v != kind.version() {
                return Freshness::Version(v);
            }
            match catalog {
                None => Freshness::Good,
                Some(h) => {
                    if data.len() < 16 {
                        Freshness::Short
                    } else if read64(data, 8) != h {
                        Freshness::OtherCatalog
                    } else {
                        Freshness::Good
                    }
                },
            }
        },
    }
}

/// The version that the mark is taken from is the one that was written.
pub proof fn law_version_mark(version: u32)
    requires
        version < 0x8000_0000,
    ensures
        plain_version(version | 0x8000_0000) == version,
{
    assert((version | 0x8000_0000u32) & 0x7fff_ffffu32 == version) by (bit_vector)
        requires
            version < 0x8000_0000,
    ;
}

/// What is said of a weights file that has to be trained anew.
pub open spec fn retrain_text(
    kind: ClassifierKind,
    path: Seq<char>,
    f: Freshness,
) -> Option<Seq<char>> {
    let head = kind.label_text() + " weights "@ + path;
    match f {
        Freshness::Version(v) => Some(
            head + " are v"@ + decimal(v as nat) + ", need v"@ + decimal(
                kind.file_version() as nat,
            ) + " — retraining..."@,
        ),
        Freshness::OtherCatalog => Some(head + " stale (catalog changed), retraining..."@),
        _ => None,
    }
}

fn weights_at(kind: ClassifierKind, path: &str) -> (s: String)
    ensures
        s@ == kind.label_text() + " weights "@ + path@,
{
    let mut s: String = kind.label();
    s.append(" weights ");
    s.append(path);
    s
}

/// What is said of a weights file that has to be trained anew.
pub fn retrain_note(kind: ClassifierKind, path: &str, f: Freshness) -> (r: Option<String>)
    ensures
        match retrain_text(kind, path@, f) {
            Some(t) => r is Some && r->0@ == t,
            None => r is None,
        },
{
    let mut s: String = weights_at(kind, path);
    match f {
        Freshness::Version(v) => {
            s.append(" are v");
            s.append(text_of(&to_decimal(v as u64)).as_str());
            s.append(", need v");
            s.append(text_of(&to_decimal(kind.version() as u64)).as_str());
            s.append(" — retraining...");
            Some(s)
        },
        Freshness::OtherCatalog => {
            s.append(" stale (catalog changed), retraining...");
            Some(s)
        },
        _ => None,
    }
}

/// Whether weights are trained before they are loaded. Without the means to train them,
/// weights that are not good are an error.
pub fn needs_training(kind: ClassifierKind, path: &str, f: Freshness, can_train: bool) -> (r: Result<
    bool,
    String,
>)
    ensures
        f is Good ==> r == Ok::<bool, String>(false),
        f !is Good && can_train ==> r == Ok::<bool, String>(true),
        f !is Good && !can_train ==> r is Err && r->Err_0@ == kind.label_text() + " weights "@
            + path@ + " not found and no training context provided"@,
{
    match f {
        Freshness::Good => Ok(false),
        _ => {
            if can_train {
                Ok(true)
            } else {
                let mut s: String = weights_at(kind, path);
                s.append(" not found and no training context provided");
                Err(s)
            }
        },
    }
}

/// The hash in a catalog file.
pub open spec fn catalog_hash_of(data: Seq<u8>) -> Option<u64> {
    if data.len() < 16 || data[0] != 0x46 || data[1] != 0x4f || data[2] != 0x4e || data[3] != 0x54 {
        None
    } else {
        Some(get64(data, 8))
    }
}

/// The hash in a catalog file, which begins with `FONT`.
pub fn read_catalog_hash(data: &[u8]) -> (r: Option<u64>)
    ensures
        r == catalog_hash_of(data@),
{
    if data.len() < 16 || data[0] != 0x46 || data[1] != 0x4f || data[2] != 0x4e || data[3] != 0x54 {
        None
    } else {
        Some(read64(data, 8))
    }
}

// --- Are the training features good? ---

/// A file in the directory of training features.
pub struct FeatureFile {
    pub name: String,
    /// What it holds, if it can be read.
    pub content: Option<String>,
    /// When it was last written, if that is known.
    pub mtime: Option<i128>,
}

/// The word stands in the line at `i`, on its own.
pub open spec fn word_at(line: Seq<char>, word: Seq<char>, i: int) -> bool {
    &&& occurs_at(line, word, i)
    &&& i == 0 || is_space(line[i - 1])
    &&& i + word.len() == line.len() || is_space(line[i + word.len()])
}

/// The line has the word among its words.
pub open spec fn has_word(line: Seq<char>, word: Seq<char>) -> bool {
    exists|i: int| #[trigger] word_at(line, word, i)
}

fn holds_word(line: &Vec<char>, word: &Vec<char>) -> (r: bool)
    ensures
        r == has_word(line@, word@),
{
    let n: usize = line.len();
    let m: usize = word.len();
    if m > n {
        return false;
    }
    let mut i: usize = 0;
    while i <= n - m
        invariant
            n == line@.len(),
            m == word@.len(),
            m <= n,
            i <= n - m + 1,
            forall|k: int| 0 <= k < i ==> !#[trigger] word_at(line@, word@, k),
        decreases n - m + 1 - i,
    {
        let found: bool = crate::text::found_at(line, word, i) && (i == 0 || is_white(
            crate::text::char_at(line, i - 1),
        )) && (i + m == n || is_white(crate::text::char_at(line, i + m)));
        assert(found == word_at(line@, word@, i as int));
        if found {
            return true;
        }
        if i == n - m {
            return false;
        }
        i = i + 1;
    }
    false
}

/// The mark of an ink threshold in the header of a manifest.
pub open spec fn threshold_tag(threshold: u8) -> Seq<char> {
    "th="@ + decimal(threshold as nat)
}

/// The first line of a manifest carries the mark.
pub open spec fn manifest_ok(content: Option<Seq<char>>, threshold: u8) -> bool {
    match content {
        None => false,
        Some(text) => lines(text).len() > 0 && has_word(lines(text)[0], threshold_tag(threshold)),
    }
}

impl FeatureFile {
    pub open spec fn is_manifest(&self) -> bool {
        starts_with(self.name@, "manifest_"@)
    }

    pub open spec fn text(&self) -> Option<Seq<char>> {
        match self.content {
            Some(s) => Some(s@),
            None => None,
        }
    }

    /// A manifest of features for another threshold, or from before the scan.
    pub open spec fn is_stale(&self, scanned: i128, threshold: u8) -> bool {
        self.is_manifest() && (!manifest_ok(self.text(), threshold) || (self.mtime is Some
            && self.mtime->0 < scanned))
    }

    /// A manifest of features from after the weights.
    pub open spec fn is_newer(&self, weights: i128) -> bool {
        self.is_manifest() && self.mtime is Some && weights < self.mtime->0
    }

    fn named_manifest(&self) -> (r: bool)
        ensures
            r == self.is_manifest(),
    {
        has_prefix(&chars_of(self.name.as_str()), &chars_of("manifest_"))
    }

    fn header_ok(&self, threshold: u8) -> (r: bool)
        ensures
            r == manifest_ok(self.text(), threshold),
    {
        match &self.content {
            None => false,
            Some(text) => {
                let tag: String = joined("th=", text_of(&to_decimal(threshold as u64)).as_str());
                let all: Vec<Vec<char>> = lines_of(&chars_of(text.as_str()));
                if all.len() == 0 {
                    assert(lines(text@).len() == 0);
                    false
                } else {
                    assert(lines(text@)[0] == all@[0]@);
                    holds_word(&all[0], &chars_of(tag.as_str()))
                }
            },
        }
    }
}

/// Whether features have to be extracted anew: one of their manifests is for another ink
/// threshold or older than the font scan. That is not asked of a cache directory other
/// than the default one, nor where there was no scan or there are no features.
pub fn training_features_stale(
    default_cache: bool,
    scanned: Option<i128>,
    files: Option<&Vec<FeatureFile>>,
    threshold: u8,
) -> (r: bool)
    ensures
        r == (default_cache && scanned is Some && files is Some && exists|i: int|
            0 <= i < files->0@.len() && (#[trigger] files->0@[i]).is_stale(scanned->0, threshold)),
{
    if !default_cache {
        return false;
    }
    let t: i128 = match scanned {
        None => {
            return false;
        },
        Some(t) => t,
    };
    match files {
        None => false,
        Some(v) => {
            let n: usize = v.len();
            for i in 0..n
                invariant
                    n == v@.len(),
                    default_cache,
                    scanned == Some(t),
                    files == Some(v),
                    forall|k: int| 0 <= k < i ==> !(#[trigger] v@[k]).is_stale(t, threshold),
            {
                let f = &v[i];
                if f.named_manifest() {
                    let older: bool = match f.mtime {
                        Some(m) => m < t,
                        None => false,
                    };
                    if !f.header_ok(threshold) || older {
                        assert(files->0@[i as int].is_stale(scanned->0, threshold));
                        return true;
                    }
                }
            }
            false
        },
    }
}

/// Whether a manifest of features is newer than the weights. That is not asked of a cache
/// directory other than the default one, nor where there are no weights or no features.
pub fn weights_older_than_features(
    default_cache: bool,
    weights: Option<i128>,
    files: Option<&Vec<FeatureFile>>,
) -> (r: bool)
    ensures
        r == (default_cache && weights is Some && files is Some && exists|i: int|
            0 <= i < files->0@.len() && (#[trigger] files->0@[i]).is_newer(weights->0)),
{
    if !default_cache {
        return false;
    }
    let t: i128 = match weights {
        None => {
            return false;
        },
        Some(t) => t,
    };
    match files {
        None => false,
        Some(v) => {
            let n: usize = v.len();
            for i in 0..n
                invariant
                    n == v@.len(),
                    default_cache,
                    weights == Some(t),
                    files == Some(v),
                    forall|k: int| 0 <= k < i ==> !(#[trigger] v@[k]).is_newer(t),
            {
                let f = &v[i];
                if f.named_manifest() {
                    let newer: bool = match f.mtime {
                        Some(m) => t < m,
                        None => false,
                    };
                    if newer {
                        assert(files->0@[i as int].is_newer(weights->0));
                        return true;
                    }
                }
            }
            false
        },
    }
}

// --- Loading or training ---

/// What is found of weights that could be loaded from the default path.
#[derive(Clone, Copy, Debug, PartialEq, Eq, Structural)]
pub enum CachedVerdict {
    /// They are used.
    Use,
    /// They were trained on another catalog.
    OtherCatalog,
    /// The features that they were trained on are stale.
    StaleFeatures,
    /// They are older than the features.
    OldWeights,
}

/// Judges weights that could be loaded. Nothing is held against them where their catalog
/// or the present one is not known.
pub fn judge_cached(
    model_hash: Option<u64>,
    catalog_hash: Option<u64>,
    features_stale: bool,
    weights_old: bool,
) -> (v: CachedVerdict)
    ensures
        v == (if model_hash is None || catalog_hash is None {
            CachedVerdict::Use
        } else if model_hash->0 != catalog_hash->0 {
            CachedVerdict::OtherCatalog
        } else if features_stale {
            CachedVerdict::StaleFeatures
        } else if weights_old {
            CachedVerdict::OldWeights
        } else {
            CachedVerdict::Use
        }),
{
    match (model_hash, catalog_hash) {
        (Some(m), Some(c)) => {
            if m != c {
                CachedVerdict::OtherCatalog
            } else if features_stale {
                CachedVerdict::StaleFeatures
            } else if weights_old {
                CachedVerdict::OldWeights
            } else {
                CachedVerdict::Use
            }
        },
        _ => CachedVerdict::Use,
    }
}

/// Why there is no classifier in the end.
#[derive(Clone, Copy, Debug, PartialEq, Eq, Structural)]
pub enum LoadFailure {
    /// The weights that were asked for cannot be loaded.
    Explicit,
    /// There are no weights and no means to train them.
    NoTraining,
    /// The training did not write weights.
    NothingTrained,
    /// The weights that were trained cannot be loaded.
    Trained,
}

/// What is done next.
#[derive(Clone, Copy, Debug, PartialEq, Eq, Structural)]
pub enum LoadStep {
    /// Load the weights that were asked for.
    LoadExplicit,
    /// Load the weights at the default path and judge them.
    LoadCached,
    /// Train weights.
    Train,
    /// Load the weights that were trained.
    LoadTrained,
    /// The classifier is there.
    Ready,
    /// There is none.
    Failed(LoadFailure),
}

/// The first step.
pub open spec fn start_step(explicit: bool, cached: bool, can_train: bool) -> LoadStep {
    if explicit {
        LoadStep::LoadExplicit
    } else if cached {
        LoadStep::LoadCached
    } else {
        train_step(can_train)
    }
}

/// Training, if it can be done.
pub open spec fn train_step(can_train: bool) -> LoadStep {
    if can_train {
        LoadStep::Train
    } else {
        LoadStep::Failed(LoadFailure::NoTraining)
    }
}

/// The step after a step that did or did not work out.
pub open spec fn step_after(step: LoadStep, ok: bool, can_train: bool) -> LoadStep {
    match step {
        LoadStep::LoadExplicit => if ok {
            LoadStep::Ready
        } else {
            LoadStep::Failed(LoadFailure::Explicit)
        },
        LoadStep::LoadCached => if ok {
            LoadStep::Ready
        } else {
            train_step(can_train)
        },
        LoadStep::Train => if ok {
            LoadStep::LoadTrained
        } else {
            LoadStep::Failed(LoadFailure::NothingTrained)
        },
        LoadStep::LoadTrained => if ok {
            LoadStep::Ready
        } else {
            LoadStep::Failed(LoadFailure::Trained)
        },
        LoadStep::Ready => LoadStep::Ready,
        LoadStep::Failed(f) => LoadStep::Failed(f),
    }
}

/// How a classifier is loaded: from the weights that were asked for, and from no others;
/// else from the default path; else by training.
pub fn load_or_train(explicit: bool, cached: bool, can_train: bool) -> (s: LoadStep)
    ensures
        s == start_step(explicit, cached, can_train),
{
    if explicit {
        LoadStep::LoadExplicit
    } else if cached {
        LoadStep::LoadCached
    } else if can_train {
        LoadStep::Train
    } else {
        LoadStep::Failed(LoadFailure::NoTraining)
    }
}

/// The step after a step. Weights at the default path count as loaded if they are used;
/// training, if it wrote weights.
pub fn next_step(step: LoadStep, ok: bool, can_train: bool) -> (s: LoadStep)
    ensures
        s == step_after(step, ok, can_train),
{
    match step {
        LoadStep::LoadExplicit => {
            if ok {
                LoadStep::Ready
            } else {
                LoadStep::Failed(LoadFailure::Explicit)
            }
        },
        LoadStep::LoadCached => {
            if ok {
                LoadStep::Ready
            } else if can_train {
                LoadStep::Train
            } else {
                LoadStep::Failed(LoadFailure::NoTraining)
            }
        },
        LoadStep::Train => {
            if ok {
                LoadStep::LoadTrained
            } else {
                LoadStep::Failed(LoadFailure::NothingTrained)
            }
        },
        LoadStep::LoadTrained => {
            if ok {
                LoadStep::Ready
            } else {
                LoadStep::Failed(LoadFailure::Trained)
            }
        },
        LoadStep::Ready => LoadStep::Ready,
        LoadStep::Failed(f) => LoadStep::Failed(f),
    }
}

/// How many steps may still follow.
pub open spec fn steps_left(step: LoadStep) -> int {
    match step {
        LoadStep::LoadCached => 3,
        LoadStep::Train => 2,
        LoadStep::LoadTrained => 1,
        LoadStep::LoadExplicit => 1,
        LoadStep::Ready => 0,
        LoadStep::Failed(_) => 0,
    }
}

/// Loading comes to an end: every step brings it closer, and weights are trained at most
/// once. Weights that were asked for are loaded or loading fails.
pub proof fn law_loading_ends(step: LoadStep, ok: bool, can_train: bool)
    ensures
        steps_left(step) > 0 ==> steps_left(step_after(step, ok, can_train)) < steps_left(step),
        steps_left(step) == 0 ==> step is Ready || step is Failed,
        step_after(LoadStep::LoadExplicit, ok, can_train) == (if ok {
            LoadStep::Ready
        } else {
            LoadStep::Failed(LoadFailure::Explicit)
        }),
        step_after(step, ok, can_train) is Train ==> step is LoadCached && can_train,
{
}

/// What is said where loading fails.
pub open spec fn failure_text(
    f: LoadFailure,
    label: Seq<char>,
    path: Seq<char>,
    reason: Seq<char>,
) -> Seq<char> {
    match f {
        LoadFailure::NoTraining => "No "@ + label + " weights found at "@ + path
            + " and auto-training not available"@,
        LoadFailure::NothingTrained => "Auto-training failed to produce "@ + label
            + " weights at "@ + path,
        _ => "Error loading "@ + label + " weights from "@ + path + ": "@ + reason,
    }
}

/// What is said where loading fails.
pub fn failure_message(f: LoadFailure, label: &str, path: &str, reason: &str) -> (r: String)
    ensures
        r@ == failure_text(f, label@, path@, reason@),
{
    match f {
        LoadFailure::NoTraining => {
            let mut s: String = copy_of("No ");
            s.append(label);
            s.append(" weights found at ");
            s.append(path);
            s.append(" and auto-training not available");
            s
        },
        LoadFailure::NothingTrained => {
            let mut s: String = copy_of("Auto-training failed to produce ");
            s.append(label);
            s.append(" weights at ");
            s.append(path);
            s
        },
        _ => {
            let mut s: String = copy_of("Error loading ");
            s.append(label);
            s.append(" weights from ");
            s.append(path);
            s.append(": ");
            s.append(reason);
            s
        },
    }
}

/// What is found of a weights file. It is missing where there is none. Its header is short with
/// fewer than eight bytes, or fewer than sixteen where the catalog matters: always for linear
/// discriminant weights, for the others once the version is right and a catalog is known. The
/// four bytes behind the magic have to make the version, whatever their highest bit is, and the
/// eight behind those the hash of the catalog.
pub proof fn law_freshness(kind: ClassifierKind, data: Seq<u8>, catalog: Option<u64>)
    ensures
        freshness_of(kind, None, catalog) is Missing,
        ({
            let f = freshness_of(kind, Some(data), catalog);
            let least: int = if kind is Lda {
                16
            } else {
                8
            };
            let wanted: int = if kind is Lda {
                8
            } else if kind is Mlp {
                2
            } else {
                3
            };
            let v = (data[4] + 256 * data[5] + 65536 * data[6] + 16777216 * data[7])
                % 2147483648;
            let same = catalog is None || get64(data, 8) == catalog->0;
            &&& f !is Missing
            &&& f is Good <==> data.len() >= least && v == wanted && (catalog is None || (data.len()
                >= 16 && same))
            &&& f is Short <==> data.len() < least || (v == wanted && catalog is Some && data.len()
                < 16)
            &&& f is Version <==> data.len() >= least && v != wanted
            &&& f is Version ==> f->Version_0 == v
            &&& f is OtherCatalog <==> data.len() >= 16 && v == wanted && !same
        }),
{
    let w = get32(data, 4);
    assert(w & 0x7fff_ffff == w % 0x8000_0000) by (bit_vector);
    assert(w == data[4] + 256 * data[5] + 65536 * data[6] + 16777216 * data[7]);
}

/// A file tells the hash of a catalog if it has at least sixteen bytes and begins with `FONT`;
/// the hash follows eight bytes from the beginning. What stands elsewhere does not matter.
pub proof fn law_catalog_hash(data: Seq<u8>, other: Seq<u8>)
    ensures
        catalog_hash_of(data) is Some <==> data.len() >= 16 && data.take(4) == seq![
            70u8,
            79u8,
            78u8,
            84u8,
        ],
        catalog_hash_of(data) is Some ==> catalog_hash_of(data)->0 == get64(data, 8),
        data.len() >= 16 && data.len() <= other.len() && (forall|i: int|
            0 <= i < 16 ==> data[i] == #[trigger] other[i]) ==> catalog_hash_of(data)
            == catalog_hash_of(other),
{
    let head = seq![70u8, 79u8, 78u8, 84u8];
    if data.len() >= 16 {
        assert(data.take(4).len() == 4);
        assert(data.take(4)[0] == data[0] && data.take(4)[1] == data[1] && data.take(4)[2]
            == data[2] && data.take(4)[3] == data[3]);
        if catalog_hash_of(data) is Some {
            assert(data.take(4) =~= head);
        }
        if data.take(4) == head {
            assert(head[0] == 70 && head[1] == 79 && head[2] == 78 && head[3] == 84);
        }
    }
}

/// A line has a word among its words exactly if it is that word with something before it that
/// is empty or ends in white space, and something behind it that is empty or begins with white
/// space.
pub proof fn law_has_word(line: Seq<char>, word: Seq<char>)
    ensures
        has_word(line, word) <==> exists|before: Seq<char>, after: Seq<char>|
            line == #[trigger] (before + word + after) && (before.len() == 0 || is_space(
                before.last(),
            )) && (after.len() == 0 || is_space(after[0])),
{
    if has_word(line, word) {
        let i = choose|i: int| #[trigger] word_at(line, word, i);
        let before = line.take(i);
        let after = line.skip(i + word.len());
        assert(line =~= before + line.subrange(i, i + word.len()) + after);
        assert(line == before + word + after);
        if before.len() > 0 {
            assert(before.last() == line[i - 1]);
        }
        if after.len() > 0 {
            assert(after[0] == line[i + word.len()]);
        }
    }
    if exists|before: Seq<char>, after: Seq<char>|
        line == #[trigger] (before + word + after) && (before.len() == 0 || is_space(
            before.last(),
        )) && (after.len() == 0 || is_space(after[0])) {
        let (before, after) = choose|before: Seq<char>, after: Seq<char>|
            line == #[trigger] (before + word + after) && (before.len() == 0 || is_space(
                before.last(),
            )) && (after.len() == 0 || is_space(after[0]));
        let i = before.len() as int;
        assert(line.subrange(i, i + word.len()) =~= word);
        if i > 0 {
            assert(line[i - 1] == before.last());
        }
        if after.len() > 0 {
            assert(line[i + word.len()] == after[0]);
        }
        assert(word_at(line, word, i));
    }
}

/// A file is held to be stale only if it is a manifest, and then exactly if its first line does
/// not have the threshold among its words, or it was written before the scan. A file of unknown
/// age is neither older than the scan nor newer than the weights.
pub proof fn law_stale(file: FeatureFile, time: i128, threshold: u8)
    ensures
        file.is_stale(time, threshold) ==> starts_with(file.name@, "manifest_"@),
        file.is_newer(time) ==> starts_with(file.name@, "manifest_"@),
        starts_with(file.name@, "manifest_"@) ==> (file.is_stale(time, threshold) <==> (
        file.content is None || lines(file.content->0@).len() == 0 || !has_word(
            lines(file.content->0@)[0],
            "th="@ + decimal(threshold as nat),
        ) || (file.mtime is Some && file.mtime->0 < time))),
        starts_with(file.name@, "manifest_"@) ==> (file.is_newer(time) <==> file.mtime is Some
            && file.mtime->0 > time),
        file.mtime is None ==> !file.is_newer(time),
{
}

/// Weights are loaded only if something could be loaded: from the file that was asked for, else
/// from the default path, else after a training that wrote them. Without the means to train,
/// weights that are not at the default path or not good are a failure.
pub proof fn law_loading_order(explicit: bool, cached: bool, can_train: bool, step: LoadStep, ok: bool)
    ensures
        start_step(explicit, cached, can_train) is LoadExplicit <==> explicit,
        start_step(explicit, cached, can_train) is LoadCached <==> !explicit && cached,
        start_step(explicit, cached, can_train) is Train <==> !explicit && !cached && can_train,
        start_step(explicit, cached, can_train) is Failed <==> !explicit && !cached && !can_train,
        start_step(explicit, cached, can_train) is Failed ==> start_step(
            explicit,
            cached,
            can_train,
        )->Failed_0 is NoTraining,
        step_after(step, ok, can_train) is Ready <==> step is Ready || (ok && (step is LoadExplicit
            || step is LoadCached || step is LoadTrained)),
        step_after(step, ok, can_train) is LoadTrained <==> step is Train && ok,
        step_after(step, ok, can_train) is Train <==> step is LoadCached && !ok && can_train,
        step is LoadCached && !ok && !can_train ==> step_after(step, ok, can_train)
            == LoadStep::Failed(LoadFailure::NoTraining),
        step is Train && !ok ==> step_after(step, ok, can_train) == LoadStep::Failed(
            LoadFailure::NothingTrained,
        ),
        step is LoadTrained && !ok ==> step_after(step, ok, can_train) == LoadStep::Failed(
            LoadFailure::Trained,
        ),
        step is Failed ==> step_after(step, ok, can_train) == step,
{
}

/// A plan names each of its classifiers once, and the file that was asked for is meant for just
/// one of them. What is trained for a classifier is that classifier and nothing else, and what
/// is saved under a name is what that name stands for.
pub proof fn law_plans(plan: ClassifierPlan, name: Seq<char>, kind: ClassifierKind)
    ensures
        parts_of(plan).len() == (if plan is Zncc {
            0int
        } else if plan is Fusion {
            2
        } else {
            1
        }),
        forall|i: int, j: int|
            0 <= i < j < parts_of(plan).len() ==> (#[trigger] parts_of(plan)[i]).0 != (
            #[trigger] parts_of(plan)[j]).0,
        forall|i: int|
            0 <= i < parts_of(plan).len() ==> ((#[trigger] parts_of(plan)[i]).1 <==> i == 0),
        plan is Fusion ==> parts_of(plan)[0].0 is Lda && parts_of(plan)[1].0 is Fisher,
        plan is Single ==> parts_of(plan)[0].0 == plan->Single_0,
        kind.train_flags().lda <==> kind is Lda,
        kind.train_flags().fisher <==> kind is Fisher,
        kind.train_flags().mahalanobis <==> kind is Mahalanobis,
        kind.train_flags().mlp <==> kind is Mlp,
        plan_of(name) is Some && plan_of(name)->0 is Single && plan_of(name)->0->Single_0 !is Mlp
            ==> saved_kind(name) == Some(plan_of(name)->0->Single_0),
        saved_kind(name) is Some && plan_of(name) is Some ==> plan_of(name) == Some(
            ClassifierPlan::Single(saved_kind(name)->0),
        ),
        saved_kind(name) is Some && plan_of(name) is None ==> name == "fisher"@ && saved_kind(
            name,
        )->0 is Fisher,
{
    reveal_strlit("lda");
    reveal_strlit("perchar-fisher");
    reveal_strlit("fisher");
    reveal_strlit("triplet");
    reveal_strlit("mahalanobis");
    reveal_strlit("mlp");
    reveal_strlit("fusion");
    reveal_strlit("zncc");
    assert("lda"@[0] == 'l' && "mlp"@[0] == 'm');
    assert("fisher"@[1] == 'i' && "fusion"@[1] == 'u');
    assert("lda"@.len() == 3 && "mlp"@.len() == 3 && "zncc"@.len() == 4);
    assert("fisher"@.len() == 6 && "fusion"@.len() == 6 && "triplet"@.len() == 7);
    assert("mahalanobis"@.len() == 11 && "perchar-fisher"@.len() == 14);
}


/// The formats are told apart by their first four bytes, in ASCII `LDAC`, `FISH`, `TRIP`, `MAHA`
/// and `MLPC`, and no two kinds share them.
pub proof fn law_formats(a: ClassifierKind, b: ClassifierKind)
    ensures
        a.magic_bytes().len() == 4,
        a.magic_bytes() == b.magic_bytes() ==> a == b,
        ClassifierKind::Lda.magic_bytes() == seq![76u8, 68u8, 65u8, 67u8],
        ClassifierKind::Fisher.magic_bytes() == seq![70u8, 73u8, 83u8, 72u8],
        ClassifierKind::Triplet.magic_bytes() == seq![84u8, 82u8, 73u8, 80u8],
        ClassifierKind::Mahalanobis.magic_bytes() == seq![77u8, 65u8, 72u8, 65u8],
        ClassifierKind::Mlp.magic_bytes() == seq![77u8, 76u8, 80u8, 67u8],
        a.file_version() == 8 <==> a is Lda,
        a.file_version() == 2 <==> a is Mlp,
        a.file_version() == 3 <==> a is Fisher || a is Triplet || a is Mahalanobis,
{
    let x = a.magic_bytes();
    let y = b.magic_bytes();
    assert(x == y ==> x[0] == y[0] && x[1] == y[1]);
}


} // verus!
