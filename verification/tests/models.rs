use unscan::cache::NameSet;
use unscan::char_index::{
    build_char_index, count_fonts, CharFeatures, CharIndex, FontCharEntry, FontResult,
    FEAT_LEN as INDEX_FEATS,
};
use unscan::embedders::{
    load_fisher, load_lda, load_mahalanobis, load_triplet, EmbedderError, WeightFault,
};
use unscan::features::{feature_names, FEAT_LEN};
use unscan::index_file::{expected_header, load_index, peek_header, save_index, IndexError};
use unscan::lru::{PerFontLruCache, PER_FONT_CACHE_DEFAULT_CAPACITY};
use unscan::mapped_model::{MmapNgramModel, ModelError};
use unscan::mlp::{
    mlp_bytes, InferenceLinear, MlpCharNet, MlpClassifier, MlpEntry, MlpError, MLP_H1, MLP_H2,
};
use unscan::model_store::CharModelStore;
use unscan::ngram_model::{ImageModel, NgramModel};
use unscan::per_font::{
    classifier_source, key_hash, projected_dims, trained_chars, PerFontLda, Source,
};
use unscan::raster::GrayImage;
use unscan::samples::{
    active_heights, at_native_height, at_training_height, char_counts, combo_file, csv_heading,
    family_rank, fisher_bytes, fonts_taken, group_families, image_record, manifest_file,
    manifest_text, multi_variant, parse_dpis, put_sample, read_manifest, read_samples,
    render_count, triplet_bytes, Families, FisherRow, NetEntry, TrainingSample,
};
use unscan::float_bits::whole_number;
use unscan::trained::{LdaNumbers, LdaTraining, MlpLayers, MlpTraining};
use unscan::training::{
    class_ids, lda_entry, lda_target_dims, plan_sequence, GlyphGroup, GlyphNet, ProjectionError,
    PARAMS_PER_CHAR,
};
use unscan::weights::{
    build_classifier, check_weights, default_catalog_path, default_lda_weights_path,
    failure_message, judge_cached, load_or_train, needs_training, next_step, plan_parts,
    read_catalog_hash, retrain_note, save_target, training_features_stale,
    weights_older_than_features, CachedVerdict, ClassifierKind, ClassifierPlan, FeatureFile,
    Freshness, LoadFailure, LoadStep,
};

fn bits(v: &[f32]) -> Vec<u32> {
    v.iter().map(|x| x.to_bits()).collect()
}

fn chars(s: &str) -> Vec<char> {
    s.chars().collect()
}

fn image_model(weights: Vec<u32>) -> ImageModel {
    ImageModel {
        weights,
        centroids: vec![(7, bits(&[1.0, 2.0])), (9, bits(&[3.0, 4.0]))],
        sigma_sq: 0.5f32.to_bits(),
        med_nn: 0.25f32.to_bits(),
    }
}

fn model(weights: Vec<u32>) -> NgramModel {
    let mut m: NgramModel = NgramModel::new(0x1122_3344_5566_7788);
    m.entries.insert(chars("fi"), image_model(weights.clone()));
    m.entries.insert(chars("a"), image_model(weights));
    m
}

#[test]
fn models_are_read_as_they_were_written() {
    let data: Vec<u8> = model(bits(&[9.0])).write_bin(b"LDAC", 8);
    assert_eq!(&data[0..4], b"LDAC");
    let m: MmapNgramModel = MmapNgramModel::load_indexed(data, b"LDAC").ok().unwrap();
    assert!(m.is_sound());
    assert_eq!(m.catalog_hash, 0x1122_3344_5566_7788);
    assert_eq!(m.entry_keys(), &vec![chars("a"), chars("fi")]);
    assert_eq!(m.glyph_count(&chars("fi")), 2);
    assert_eq!(m.glyph_count(&chars("x")), 0);
    assert_eq!(m.glyph_ids(&chars("a")), vec![7u32, 9]);
    assert_eq!(m.centroid_vecs(&chars("a")), vec![bits(&[1.0, 2.0]), bits(&[3.0, 4.0])]);
    assert_eq!(m.weights(&chars("a")), Some(bits(&[9.0])));
    assert_eq!(m.weights(&chars("b")), None);
    let back: NgramModel = m.to_owned_model();
    assert_eq!(back.write_bin(b"LDAC", 8), model(bits(&[9.0])).write_bin(b"LDAC", 8));
}

#[test]
fn glyphs_behind_the_end_matter_when_they_are_used() {
    let mut weights: Vec<u32> = bits(&[1.0]);
    weights.extend(vec![0u32; FEAT_LEN]);
    let data: Vec<u8> = model(weights).write_bin(b"LDAC", 8);
    let cut: Vec<u8> = data[0..data.len() - 4].to_vec();
    let (m, p) = load_lda(cut).ok().unwrap();
    assert_eq!(p.len(), 2);
    assert!(m.has_weights() && !m.is_sound());
    assert!(m.is_usable(&chars("a")) && !m.is_usable(&chars("fi")) && m.is_usable(&chars("x")));
    assert_eq!(m.glyph_ids(&chars("a")), vec![7u32, 9]);
    let store: CharModelStore = CharModelStore::Mmap(m);
    assert!(!store.is_sound());
    assert_eq!(store.glyph_count(&chars("fi")), 2);
    let short: Vec<u8> = data[0..data.len() - 100].to_vec();
    assert!(matches!(load_lda(short).err().unwrap(), EmbedderError::OutOfFile));
    let (whole, _) = load_lda(data).ok().unwrap();
    assert!(CharModelStore::Mmap(whole).is_sound());
}

fn model_error(data: Vec<u8>) -> String {
    match MmapNgramModel::load_indexed(data, b"LDAC") {
        Ok(_) => "none".to_string(),
        Err(e) => e.message(),
    }
}

#[test]
fn broken_models_are_refused() {
    let good: Vec<u8> = model(Vec::new()).write_bin(b"LDAC", 8);
    assert_eq!(model_error(good.clone()), "none");
    assert_eq!(model_error(good[0..31].to_vec()), "file too small for indexed header");
    let mut other: Vec<u8> = good.clone();
    other[0] = b'M';
    assert_eq!(
        model_error(other),
        "bad magic: expected [76, 68, 65, 67], got [77, 68, 65, 67]"
    );
    let mut plain: Vec<u8> = good.clone();
    plain[7] = 0;
    assert_eq!(model_error(plain), "not an indexed file (version 8)");
    let mut names: Vec<u8> = good.clone();
    names[16] = 200;
    assert!(model_error(names).starts_with("truncated font name"));
    let mut many: Vec<u8> = good.clone();
    many[20] = 200;
    assert_eq!(model_error(many), "truncated entry index");
    let mut point: Vec<u8> = good.clone();
    point[38] = 0x20;
    point[39] = 0xff;
    assert!(model_error(point).starts_with("bad codepoint U+"));
    assert_eq!(ModelError::BadCodepoint(0xD800).message(), "bad codepoint U+D800");
}

#[test]
fn projections_are_checked_against_their_length() {
    let mut good: Vec<u32> = bits(&[2.0]);
    good.extend(vec![0u32; 2 * FEAT_LEN]);
    let (m, p) = load_lda(model(good).write_bin(b"LDAC", 8)).ok().unwrap();
    assert_eq!(m.entry_keys().len(), 2);
    assert_eq!((p[0].0, p[0].1.len()), (2, 2 * FEAT_LEN));
    let e: EmbedderError = load_lda(model(bits(&[2.0, 1.0])).write_bin(b"LDAC", 8)).err().unwrap();
    assert_eq!(e.message(), "LDA seq '['a']': proj len 1 != 2 × 63 = 126");
    let e: EmbedderError = load_lda(model(Vec::new()).write_bin(b"LDAC", 8)).err().unwrap();
    assert_eq!(e.message(), "LDA seq '['a']': empty weights");
    assert!(matches!(
        e,
        EmbedderError::Weights { fault: WeightFault::Projection(ProjectionError::Empty), .. }
    ));
    assert!(matches!(load_lda(vec![0; 3]).err().unwrap(), EmbedderError::Model(ModelError::TooSmall)));
}

#[test]
fn nets_are_checked_against_their_length() {
    let w: Vec<u32> = (0..PARAMS_PER_CHAR as u32).collect();
    let (_, nets) = load_triplet(model(w.clone()).write_bin(b"TRIP", 3)).ok().unwrap();
    assert_eq!(nets.len(), 2);
    assert_eq!(nets[1].flatten(), w);
    let e: EmbedderError = load_triplet(model(bits(&[1.0])).write_bin(b"TRIP", 3)).err().unwrap();
    assert_eq!(e.message(), "Triplet seq '['a']': expected 18528 params, got 1");
}

#[test]
fn transforms_and_scores_are_taken_out() {
    let (_, t) = load_mahalanobis(model(bits(&[5.0])).write_bin(b"MAHA", 3)).ok().unwrap();
    assert_eq!(t, vec![bits(&[5.0]), bits(&[5.0])]);
    let (_, s) = load_fisher(model(bits(&[5.0])).write_bin(b"FISH", 3)).ok().unwrap();
    assert_eq!((s[0].len(), s[0][0], s[0][1]), (FEAT_LEN, 5.0f32.to_bits(), 0));
    let mut far: Vec<u8> = model(bits(&[5.0])).write_bin(b"FISH", 3);
    let n: usize = far.len();
    far.truncate(n - 24);
    assert!(load_fisher(far.clone()).is_ok());
    far.truncate(n - 28);
    assert_eq!(load_fisher(far).err().unwrap().message(), "model data out of bounds");
}

#[test]
fn stores_answer_alike_in_both_forms() {
    let owned: CharModelStore = CharModelStore::Owned(model(Vec::new()));
    let data: Vec<u8> = model(Vec::new()).write_bin(b"MAHA", 3);
    let mapped: CharModelStore =
        CharModelStore::Mmap(MmapNgramModel::load_indexed(data, b"MAHA").ok().unwrap());
    for s in [owned, mapped] {
        assert_eq!(s.glyph_count(&chars("a")), 2);
        assert!(s.has_sequence(&chars("fi")) && !s.has_sequence(&chars("z")));
        assert_eq!(s.catalog_hash(), 0x1122_3344_5566_7788);
        let changed: CharModelStore = s.ensure_owned().set_catalog_hash(5);
        assert_eq!(changed.catalog_hash(), 5);
        let mut m: NgramModel = changed.into_owned();
        m.add_glyph(11, &chars("new"), bits(&[1.0]));
        m.add_glyph(12, &chars("a"), bits(&[5.0, 6.0]));
        assert_eq!(m.entries.get(&chars("a")).unwrap().centroids.len(), 3);
        assert_eq!(m.entries.get(&chars("new")).unwrap().centroids[0].0, 11);
    }
}

#[test]
fn scales_are_medians() {
    let mut m: ImageModel = image_model(Vec::new());
    m.compute_sigma_sq(&bits(&[3.0, 1.0, 2.0]));
    assert_eq!(m.sigma_sq, 2.0f32.to_bits());
    m.compute_sigma_sq(&bits(&[0.0]));
    assert_eq!(m.sigma_sq, 2.0f32.to_bits());
    m.compute_med_nn(&vec![bits(&[0.0, 4.0]), bits(&[4.0, 0.0])]);
    assert_eq!(m.med_nn, 4.0f32.to_bits());
}

fn linear(rows: usize, cols: usize) -> InferenceLinear {
    InferenceLinear { rows, cols, w: vec![1; rows * cols], b: vec![2; cols] }
}

fn mlp_entry(seq: &str) -> MlpEntry {
    MlpEntry {
        seq: chars(seq),
        net: MlpCharNet {
            fc1: linear(FEAT_LEN, MLP_H1),
            fc2: linear(MLP_H1, MLP_H2),
            fc3: linear(MLP_H2, 2),
            class_map: vec![40, 41],
        },
    }
}

#[test]
fn nets_are_read_as_they_were_written() {
    let data: Vec<u8> = mlp_bytes(&vec![mlp_entry("a"), mlp_entry("fi")]);
    let c: MlpClassifier = MlpClassifier::from_bytes(&data).ok().unwrap();
    assert_eq!(c.glyph_count(&chars("fi")), 2);
    assert_eq!(c.glyph_count(&chars("q")), 0);
    assert_eq!(c.scored(&chars("a"), &vec![8, 9]), vec![(40u32, 8u32), (41, 9)]);
}

fn mlp_error(data: &[u8]) -> String {
    match MlpClassifier::from_bytes(data) {
        Ok(_) => "none".to_string(),
        Err(e) => e.message(),
    }
}

#[test]
fn broken_nets_are_refused() {
    let good: Vec<u8> = mlp_bytes(&vec![mlp_entry("a")]);
    assert_eq!(mlp_error(&good[0..11]), "MLP file too small");
    let mut other: Vec<u8> = good.clone();
    other[0] = b'X';
    assert_eq!(mlp_error(&other), "bad magic (expected MLPC, got [88, 76, 80, 67])");
    let mut version: Vec<u8> = good.clone();
    version[4] = 1;
    assert_eq!(mlp_error(&version), "MLP weights are v1, need v2 — retraining required");
    assert_eq!(mlp_error(&good[0..14]), "truncated header data");
    assert_eq!(mlp_error(&good[0..100]), "truncated weight data");
    let mut point: Vec<u8> = good.clone();
    point[17] = 0xd8;
    assert_eq!(mlp_error(&point), "invalid codepoint U+D861");
    let mut none: Vec<u8> = good.clone();
    none[20] = 0;
    assert_eq!(mlp_error(&none), "seq ['a']: zero classes");
    assert!(matches!(MlpClassifier::from_bytes(&none), Err(MlpError::ZeroClasses(_))));
}

fn lda() -> PerFontLda {
    PerFontLda {
        projection: bits(&[1.0, 2.0, 3.0, 4.0]),
        out_dim: 2,
        feat_dim: 2,
        centroids: vec![bits(&[0.0, 1.0]), bits(&[2.0, 3.0])],
        sigma_sq: 7,
        char_map: chars("xy"),
        font_key: "font".to_string(),
        catalog_hash: 99,
    }
}

#[test]
fn classifiers_of_fonts_are_read_as_they_were_written() {
    let data: Vec<u8> = lda().to_bytes();
    let back: PerFontLda = PerFontLda::from_bytes(&data, "font", 99).unwrap();
    assert_eq!(back.projection, lda().projection);
    assert_eq!(back.centroids, lda().centroids);
    assert_eq!(back.char_map, chars("xy"));
    assert!(PerFontLda::from_bytes(&data, "font", 98).is_none());
    assert!(PerFontLda::from_bytes(&data[0..data.len() - 1], "font", 99).is_none());
    assert_eq!(back.nearest_classes(&bits(&[2.0, 1.0]), 1), vec![('y', 1usize)]);
    assert_eq!(back.nearest_classes(&bits(&[1.0, 1.0]), 5), vec![('x', 0usize), ('y', 1)]);
}

#[test]
fn classifiers_are_made_from_training() {
    let made = |n: usize, rows: usize, dims: usize| {
        let chars: Vec<char> = (0..n).map(|i| (b'a' + i as u8) as char).collect();
        let vecs: Vec<Vec<u32>> = (0..n).map(|i| vec![i as u32; rows]).collect();
        PerFontLda::from_training("font", 99, chars, dims as u32, vec![3; rows * dims], vecs, 8)
    };
    let lda: PerFontLda = made(6, 5, 10).unwrap();
    assert_eq!((lda.out_dim, lda.feat_dim, lda.sigma_sq, lda.catalog_hash), (5, 10, 8, 99));
    assert_eq!(lda.char_map, chars("abcdef"));
    assert_eq!(lda.centroids[4], vec![4; 5]);
    let back: PerFontLda = PerFontLda::from_bytes(&lda.to_bytes(), "font", 99).unwrap();
    assert_eq!(back.projection, lda.projection);
    assert!(made(4, 3, 10).is_none());
    assert!(made(6, 4, 10).is_none());
    assert!(made(6, 1, 2).is_some());
    assert!(made(6, 0, 0).is_none());
    assert!(PerFontLda::from_training("f", 1, chars("abcde"), 9, vec![0; 36], vec![vec![0; 4]; 4], 0).is_none());
    let mut odd: Vec<Vec<u32>> = vec![vec![0; 4]; 5];
    odd[2].pop();
    assert!(PerFontLda::from_training("f", 1, chars("abcde"), 9, vec![0; 36], odd, 0).is_none());
}

#[test]
fn where_classifiers_of_fonts_come_from() {
    assert_eq!(key_hash(""), 0xcbf2_9ce4_8422_2325);
    assert_eq!(key_hash("a"), 0xaf63_dc4c_8601_ec8c);
    let path: String = PerFontLda::cache_path("/c", "a");
    assert_eq!(path, "/c/per-font-lda/af63dc4c8601ec8c.bin");
    assert!(matches!(classifier_source(true, false), Source::Memory));
    assert!(matches!(classifier_source(false, true), Source::Disk));
    assert!(matches!(classifier_source(false, false), Source::Training));
    assert_eq!(trained_chars(&vec![chars("a"), chars("fi"), chars("b")]), chars("ab"));
    assert_eq!(projected_dims(4, 63), None);
    assert_eq!(projected_dims(10, 63), Some(9));
    assert_eq!(projected_dims(90, 63), Some(32));
}

#[test]
fn the_cache_keeps_what_was_used_last() {
    let mut c: PerFontLruCache<u32> = PerFontLruCache::new(2);
    c.put("a".to_string(), 1);
    c.put("b".to_string(), 2);
    assert_eq!(c.get("a"), Some(&1));
    c.put("c".to_string(), 3);
    assert_eq!(c.len(), 2);
    assert_eq!(c.get("b"), None);
    assert_eq!(c.get("a"), Some(&1));
    c.put("a".to_string(), 9);
    assert_eq!(c.get("a"), Some(&9));
    assert_eq!(c.stats(), (3, 1));
    assert_eq!(PER_FONT_CACHE_DEFAULT_CAPACITY, 16);
}

#[test]
fn classifiers_by_name() {
    assert!(matches!(build_classifier("lda"), Ok(ClassifierPlan::Single(ClassifierKind::Lda))));
    assert!(matches!(build_classifier("fusion"), Ok(ClassifierPlan::Fusion)));
    assert!(matches!(build_classifier("zncc"), Ok(ClassifierPlan::Zncc)));
    assert_eq!(
        build_classifier("x").err().unwrap(),
        "Error: unknown classifier 'x'. Use 'lda', 'perchar-fisher', 'triplet', 'mahalanobis', \
         'mlp', 'fusion', or 'zncc'."
    );
    assert_eq!(plan_parts(ClassifierPlan::Fusion).len(), 2);
    assert!(plan_parts(ClassifierPlan::Zncc).is_empty());
    assert!(save_target("lda").is_some());
    assert!(save_target("nothing").is_none());
    assert_eq!(default_lda_weights_path("/c"), "/c/lda-weights.bin");
    assert_eq!(default_catalog_path("/c"), "/c/catalog.bin");
    assert_eq!(ClassifierKind::Mlp.default_path("/c"), "/c/mlp-weights.bin");
}

#[test]
fn weights_are_good_or_trained_anew() {
    let file: Vec<u8> = model(Vec::new()).write_bin(b"LDAC", 8);
    let k: ClassifierKind = ClassifierKind::Lda;
    assert_eq!(check_weights(k, Some(&file), Some(0x1122_3344_5566_7788)), Freshness::Good);
    assert_eq!(check_weights(k, Some(&file), None), Freshness::Good);
    assert_eq!(check_weights(k, Some(&file), Some(1)), Freshness::OtherCatalog);
    assert_eq!(check_weights(k, Some(&file[0..15]), None), Freshness::Short);
    assert_eq!(check_weights(k, None, None), Freshness::Missing);
    let f: Freshness = check_weights(ClassifierKind::Fisher, Some(&file), None);
    assert_eq!(f, Freshness::Version(8));
    assert_eq!(
        retrain_note(ClassifierKind::Fisher, "/w", f),
        Some("Fisher weights /w are v8, need v3 — retraining...".to_string())
    );
    assert_eq!(retrain_note(k, "/w", Freshness::Good), None);
    assert_eq!(needs_training(k, "/w", Freshness::Good, false), Ok(false));
    assert_eq!(needs_training(k, "/w", Freshness::Short, true), Ok(true));
    assert_eq!(
        needs_training(k, "/w", Freshness::Missing, false),
        Err("LDA weights /w not found and no training context provided".to_string())
    );
}

#[test]
fn catalogs_have_a_hash() {
    let mut data: Vec<u8> = b"FONT\0\0\0\0".to_vec();
    data.extend_from_slice(&77u64.to_le_bytes());
    assert_eq!(read_catalog_hash(&data), Some(77));
    assert_eq!(read_catalog_hash(&data[0..15]), None);
    data[0] = b'f';
    assert_eq!(read_catalog_hash(&data), None);
}

fn manifest(head: &str, mtime: i128) -> FeatureFile {
    FeatureFile {
        name: "manifest_h24.txt".to_string(),
        content: Some(head.to_string()),
        mtime: Some(mtime),
    }
}

#[test]
fn features_grow_stale() {
    let good: Vec<FeatureFile> = vec![manifest("fonts=3 th=128\n1", 10)];
    assert!(!training_features_stale(true, Some(5), Some(&good), 128));
    assert!(training_features_stale(true, Some(11), Some(&good), 128));
    assert!(training_features_stale(true, Some(5), Some(&good), 12));
    assert!(!training_features_stale(false, Some(11), Some(&good), 128));
    assert!(!training_features_stale(true, None, Some(&good), 128));
    assert!(weights_older_than_features(true, Some(9), Some(&good)));
    assert!(!weights_older_than_features(true, Some(10), Some(&good)));
    assert_eq!(judge_cached(Some(1), Some(2), false, false), CachedVerdict::OtherCatalog);
    assert_eq!(judge_cached(Some(1), Some(1), true, true), CachedVerdict::StaleFeatures);
    assert_eq!(judge_cached(Some(1), Some(1), false, true), CachedVerdict::OldWeights);
    assert_eq!(judge_cached(None, Some(1), true, true), CachedVerdict::Use);
}

#[test]
fn loading_comes_to_an_end() {
    assert_eq!(load_or_train(true, true, true), LoadStep::LoadExplicit);
    assert_eq!(load_or_train(false, false, false), LoadStep::Failed(LoadFailure::NoTraining));
    let mut s: LoadStep = load_or_train(false, true, true);
    s = next_step(s, false, true);
    assert_eq!(s, LoadStep::Train);
    s = next_step(s, true, true);
    assert_eq!(s, LoadStep::LoadTrained);
    assert_eq!(next_step(s, true, true), LoadStep::Ready);
    s = next_step(s, false, true);
    assert_eq!(s, LoadStep::Failed(LoadFailure::Trained));
    assert_eq!(
        failure_message(LoadFailure::NoTraining, "LDA", "/w", "r"),
        "No LDA weights found at /w and auto-training not available"
    );
    assert_eq!(
        failure_message(LoadFailure::NothingTrained, "LDA", "/w", "r"),
        "Auto-training failed to produce LDA weights at /w"
    );
    assert_eq!(
        failure_message(LoadFailure::Explicit, "LDA", "/w", "r"),
        "Error loading LDA weights from /w: r"
    );
}

fn entry(name: &str, first: u32) -> FontCharEntry {
    let mut v: Vec<u32> = vec![0; INDEX_FEATS];
    v[0] = first;
    FontCharEntry { font_name: name.to_string(), features: CharFeatures::from_slice(&v) }
}

fn result(name: &str, entries: Vec<(char, FontCharEntry)>) -> FontResult {
    FontResult { font_name: name.to_string(), char_entries: entries }
}

fn index() -> CharIndex {
    build_char_index(&vec![
        result("B", vec![('a', entry("B", 1))]),
        result("A", vec![('a', entry("A", 2)), ('b', entry("A", 3))]),
        result("none", Vec::new()),
    ])
}

#[test]
fn an_index_is_built_from_fonts() {
    let i: CharIndex = index();
    assert_eq!(i.font_names_table, vec!["A", "B"]);
    assert_eq!(i.tree_size('a'), 2);
    assert_eq!(i.tree_size('b'), 1);
    assert_eq!(i.tree_size('c'), 0);
    assert_eq!(count_fonts(&i), 3);
    assert!(i.skipped_fonts.contains("none"));
    assert!(i.font_names().contains("A") && i.indexed_font_names().contains("B"));
    assert_eq!(i.font_name_by_id(1), Some("B"));
    assert_eq!(i.font_name_by_id(2), None);
    assert_eq!(i.font_vector('a', 0).unwrap()[0], 2);
    assert!(i.font_vector('b', 1).is_none());
}

#[test]
fn merging_keeps_what_is_there() {
    let mut i: CharIndex = index();
    let other: CharIndex = build_char_index(&vec![
        result("A", vec![('a', entry("A", 77))]),
        result("C", vec![('a', entry("C", 5))]),
    ]);
    i.merge(other);
    assert_eq!(i.tree_size('a'), 3);
    assert_eq!(i.font_vector('a', 0).unwrap()[0], 2);
    let mut names: NameSet = NameSet::new();
    names.insert("A".to_string());
    i.remove_fonts(&names);
    assert_eq!(i.tree_size('a'), 2);
    assert_eq!(i.tree_size('b'), 0);
}

#[test]
fn an_index_is_read_as_it_was_written() {
    let mut i: CharIndex = index();
    assert_eq!(i.get_dim_sigmas('a'), None);
    let spreads: Vec<Vec<u32>> = (0..i.flat_ids.len()).map(|k| vec![6 + k as u32; INDEX_FEATS]).collect();
    i.fill_dim_sigmas(&spreads);
    i.fill_dim_sigmas(&spreads);
    assert_eq!(i.dim_sigmas.len(), i.flat_ids.len());
    for (k, f) in i.flat_ids.iter().enumerate() {
        assert_eq!(i.get_dim_sigmas(f.0), Some(&spreads[k]));
    }
    assert_eq!(i.get_dim_sigmas('a').unwrap()[0], 6);
    assert_eq!(i.get_dim_sigmas('q'), None);
    let data: Vec<u8> = save_index(&i);
    assert_eq!(&data[0..4], b"UCIX");
    assert_eq!(peek_header(&data), Some(expected_header()));
    let back: CharIndex = load_index(&data).ok().unwrap();
    assert_eq!(back.font_names_table, i.font_names_table);
    assert_eq!(back.font_vector('a', 1).unwrap()[0], 1);
    assert!(back.skipped_fonts.contains("none"));
}

fn index_error(data: &[u8]) -> String {
    match load_index(data) {
        Ok(_) => "none".to_string(),
        Err(e) => e.message(),
    }
}

#[test]
fn broken_indexes_are_refused() {
    let good: Vec<u8> = save_index(&index());
    assert!(matches!(load_index(&good[0..3]), Err(IndexError::TooSmall)));
    let mut magic: Vec<u8> = good.clone();
    magic[0] = 0;
    assert!(matches!(load_index(&magic), Err(IndexError::NoMagic)));
    let mut version: Vec<u8> = good.clone();
    version[4] = 5;
    assert!(matches!(load_index(&version), Err(IndexError::Version(5))));
    let mut feats: Vec<u8> = good.clone();
    feats[8] = 1;
    assert!(matches!(load_index(&feats), Err(IndexError::FeatLen(1))));
    assert!(load_index(&good[0..good.len() / 2]).is_err());
    assert!(!index_error(&good[0..good.len() / 2]).is_empty());
}

#[test]
fn files_of_samples_have_names() {
    assert_eq!(combo_file(7, 48, 2), "char_0007_h48_aa2.bin");
    assert_eq!(combo_file(12345, 9, 0), "char_12345_h9_aa0.bin");
    assert_eq!(manifest_file(48, 1), "manifest_h48_aa1.txt");
}

#[test]
fn manifests_are_read_as_they_were_written() {
    let t: String = manifest_text(3, &vec![5, 0, 12], None);
    assert_eq!(t, "fonts=3 chars=3\n5\n0\n12");
    assert_eq!(read_manifest(&t, 3, 3, None), Some(vec![5usize, 0, 12]));
    assert_eq!(read_manifest(&t, 4, 3, None), None);
    assert_eq!(read_manifest("fonts=3 chars=3\n5\n0", 3, 3, None), None);
    assert_eq!(read_manifest("fonts=3 chars=1\nx", 3, 1, None), None);
    assert_eq!(read_manifest(" fonts=3 chars=1 \n 7 \n", 3, 1, None), Some(vec![7usize]));
    assert_eq!(read_manifest("", 3, 0, None), None);
    let marked: String = manifest_text(3, &vec![5], Some(200));
    assert_eq!(marked, "fonts=3 chars=1 th=200\n5");
    assert_eq!(read_manifest(&marked, 3, 1, Some(200)), Some(vec![5usize]));
    assert_eq!(read_manifest(&marked, 3, 1, Some(100)), None);
    assert_eq!(read_manifest(&marked, 3, 1, None), None);
    let file: FeatureFile =
        FeatureFile { name: manifest_file(48, 0), content: Some(marked), mtime: Some(9) };
    assert!(!training_features_stale(true, Some(5), Some(&vec![file]), 200));
    assert_eq!(read_manifest(&manifest_text(2, &Vec::new(), None), 2, 0, None), Some(Vec::new()));
}

#[test]
fn samples_are_read_as_they_were_written() {
    let mut out: Vec<u8> = Vec::new();
    for id in [3u32, 4] {
        put_sample(&mut out, &TrainingSample { font_id: id, features: vec![id * 10; FEAT_LEN] });
    }
    assert_eq!(out.len(), 512);
    let s: Vec<TrainingSample> = read_samples(&out, 2, FEAT_LEN).unwrap();
    assert_eq!((s[1].font_id, s[1].features[62]), (4, 40));
    assert!(read_samples(&out, 3, FEAT_LEN).is_none());
    assert!(read_samples(&out, 0, FEAT_LEN).unwrap().is_empty());
    let mut long: Vec<u8> = Vec::new();
    put_sample(&mut long, &TrainingSample { font_id: 9, features: (0u32..100).collect() });
    assert_eq!(long.len(), 404);
    assert_eq!(read_samples(&long, 1, 100).unwrap()[0].features[99], 99);
    assert!(read_samples(&long, 1, 101).is_none());
    assert!(read_samples(&long, usize::MAX, usize::MAX).is_none());
}

#[test]
fn counts_and_heights() {
    assert_eq!(char_counts(&vec![vec![1, 2], vec![10, 20]], 2), vec![11usize, 22]);
    assert_eq!(char_counts(&Vec::new(), 2), vec![0usize, 0]);
    let h: Vec<u32> = vec![48, 36, 24, 18, 12];
    assert_eq!(active_heights(&h, false), h);
    assert_eq!(active_heights(&h, true), vec![48u32, 24, 12]);
    assert_eq!(render_count(2, 3, 4, 5), 120);
    assert_eq!(fonts_taken(10, 0), 10);
    assert_eq!(fonts_taken(10, 4), 4);
    assert_eq!(fonts_taken(3, 4), 3);
}

#[test]
fn fonts_come_together_by_families() {
    let names: Vec<String> = ["b", "a", "b", "c", "a"].iter().map(|s| s.to_string()).collect();
    let f: Families = group_families(&names);
    assert_eq!(f.family, vec![0u32, 1, 0, 2, 1]);
    assert_eq!(f.members, vec![vec![0u32, 2], vec![1, 4], vec![3]]);
    assert_eq!(multi_variant(&f), 2);
    assert_eq!(family_rank(&vec![5, 3, 9, 4], &vec![0, 1, 0, 2], 0), 2);
    assert_eq!(family_rank(&vec![5, 3, 9, 4], &vec![0, 1, 0, 2], 1), 0);
    assert_eq!(family_rank(&vec![5], &vec![0], 7), 1);
}

#[test]
fn files_of_weights() {
    let out: Vec<u8> = fisher_bytes(&vec![FisherRow { ch: 'A', scores: vec![1; 63] }], 63);
    assert_eq!(&out[0..20], b"FISH\x01\0\0\0\x01\0\0\0\x3f\0\0\0\x41\0\0\0");
    assert_eq!(out.len(), 20 + 4 * FEAT_LEN);
    let net: GlyphNet = GlyphNet::from_weights(&vec![2; PARAMS_PER_CHAR]).unwrap();
    let t: Vec<u8> = triplet_bytes(&vec![NetEntry { ch: 'A', net }]);
    assert_eq!(&t[0..16], b"TRIP\x01\0\0\0\x01\0\0\0\x41\0\0\0");
    assert_eq!(t.len(), 16 + 4 * PARAMS_PER_CHAR);
    assert!(GlyphNet::from_weights(&vec![2; 5]).is_none());
}

#[test]
fn heights_are_simulated() {
    let mut img: GrayImage = GrayImage::from_pixel(20, 60, 255);
    for y in 10..50 {
        for x in 5..15 {
            img.data[y * 20 + x] = 0;
        }
    }
    assert_eq!(at_native_height(&img, 60, 20).unwrap().height, 24);
    assert_eq!(at_native_height(&img, 12, 4).unwrap().height, 24);
    assert_eq!(at_training_height(&img, 48, 0).unwrap().height, 24);
    assert_eq!(at_training_height(&img, 12, 4).unwrap().height, 24);
    let none: GrayImage = GrayImage { width: 0, height: 0, data: Vec::new() };
    assert!(at_training_height(&none, 12, 4).is_none());
}

#[test]
fn records_and_tables() {
    let img: GrayImage = GrayImage { width: 2, height: 1, data: vec![8, 9] };
    assert_eq!(image_record(&img), vec![1u8, 0, 0, 0, 2, 0, 0, 0, 8, 9]);
    assert_eq!(parse_dpis(None), vec![300u32, 200, 100]);
    assert_eq!(parse_dpis(Some("150, x,+75")), vec![150u32, 75]);
    assert_eq!(parse_dpis(Some("")), Vec::<u32>::new());
    let h: String = csv_heading(&feature_names());
    assert!(h.starts_with("font_name,char,dpi,col0,col1"));
    assert!(h.ends_with(",quad_br,mean_stroke_w"));
    assert_eq!(h.split(',').count(), 66);
    assert_eq!(csv_heading(&vec!["aspect".to_string()]), "font_name,char,dpi,aspect");
}

#[test]
fn whole_numbers_have_the_patterns_of_floats() {
    for n in 0u32..300 {
        assert_eq!(whole_number(n), (n as f32).to_bits());
    }
    for n in [0x7f_ffffu32, 0x80_0000, 0x80_0001, 0xff_ffff] {
        assert_eq!(whole_number(n), (n as f32).to_bits());
    }
}

#[test]
fn projection_entries_are_loaded_from_their_file() {
    assert_eq!(lda_target_dims(97), 62);
    let mut m: NgramModel = NgramModel::new(0xabcd_ef01_2345_6789);
    for (seq, dims) in [("b", 2usize), ("a", 62)] {
        let proj: Vec<u32> = (0..dims * FEAT_LEN).map(|i| (i as f32).to_bits()).collect();
        let centroids = vec![(7u32, vec![1u32; dims]), (9, vec![2; dims])];
        let e: ImageModel = lda_entry(dims, &proj, centroids, 5, 6);
        assert_eq!(e.weights.len(), 1 + dims * FEAT_LEN);
        assert_eq!(e.weights[0], (dims as f32).to_bits());
        assert_eq!(e.weights[1..], proj);
        assert_eq!((e.sigma_sq, e.med_nn), (5, 6));
        m.entries.insert(chars(seq), e);
    }
    let data: Vec<u8> = m.write_bin(&ClassifierKind::Lda.magic(), ClassifierKind::Lda.version());
    let hash: u64 = 0xabcd_ef01_2345_6789;
    assert_eq!(check_weights(ClassifierKind::Lda, Some(&data), Some(hash)), Freshness::Good);
    assert_eq!(
        check_weights(ClassifierKind::Lda, Some(&data), Some(hash + 1)),
        Freshness::OtherCatalog
    );
    let (got, projections) = load_lda(data).ok().unwrap();
    assert_eq!(got.catalog_hash, hash);
    assert_eq!(got.entries.keys, vec![chars("a"), chars("b")]);
    assert_eq!((projections[0].0, projections[0].1.len()), (62, 62 * 63));
    assert_eq!((projections[1].0, projections[1].1.len()), (2, 2 * 63));
    assert_eq!(projections[1].1[125], 125.0f32.to_bits());
    assert!(got.weights(&chars("q")).is_none());
}

#[test]
fn nets_tell_as_many_glyphs_apart_as_were_planned() {
    let samples: [(&str, Vec<u32>); 4] = [
        ("a", vec![8, 3, 8, 5]),
        ("b", vec![4, 4]),
        ("c", vec![1, 2]),
        ("d", Vec::new()),
    ];
    let count = |min_fonts: usize| -> Vec<usize> {
        let mut entries: Vec<MlpEntry> = Vec::new();
        for (seq, ids) in &samples {
            if let Some(groups) = plan_sequence(ids, min_fonts) {
                let class_map: Vec<u32> = class_ids(&groups);
                let mut e: MlpEntry = mlp_entry(seq);
                e.net.fc3 = linear(MLP_H2, class_map.len());
                e.net.class_map = class_map;
                entries.push(e);
            }
        }
        let c: MlpClassifier = MlpClassifier::from_bytes(&mlp_bytes(&entries)).ok().unwrap();
        samples.iter().map(|(seq, _)| c.glyph_count(&chars(seq))).collect()
    };
    assert_eq!(count(0), vec![3, 0, 2, 0]);
    assert_eq!(count(2), vec![3, 0, 2, 0]);
    assert_eq!(count(3), vec![3, 0, 0, 0]);
    assert_eq!(count(4), vec![0, 0, 0, 0]);
    let groups: Vec<GlyphGroup> = plan_sequence(&samples[0].1, 1).unwrap();
    assert_eq!(class_ids(&groups), vec![3, 5, 8]);
}

fn lda_numbers(dims: usize, glyphs: usize) -> Option<LdaNumbers> {
    let projection: Vec<u32> = vec![1; dims * FEAT_LEN];
    Some(LdaNumbers { projection, centroids: vec![vec![2; dims]; glyphs], sigma_sq: 3, med_nn: 4 })
}

#[test]
fn training_of_projections_gives_a_file() {
    let mut t: LdaTraining = LdaTraining::new(77, 97, 2);
    assert_eq!(t.dims, 62);
    t = LdaTraining::new(77, 3, 2);
    assert!(t.add(chars("b"), &vec![9, 5, 9], lda_numbers(3, 2)));
    assert!(!t.add(chars("c"), &vec![9, 9], lda_numbers(3, 1)));
    assert!(!t.add(chars("d"), &vec![1, 2], None));
    assert!(!t.add(chars("e"), &vec![1, 2], lda_numbers(4, 2)));
    assert!(!t.add(chars("f"), &vec![1, 2], lda_numbers(3, 3)));
    assert!(t.add(chars("a"), &vec![1, 2, 3], lda_numbers(3, 3)));
    let data: Vec<u8> = t.finish().unwrap();
    assert_eq!(check_weights(ClassifierKind::Lda, Some(&data), Some(77)), Freshness::Good);
    let (m, p) = load_lda(data).ok().unwrap();
    assert_eq!(m.catalog_hash, 77);
    assert_eq!(m.entries.keys, vec![chars("a"), chars("b")]);
    assert_eq!((p[0].0, p[1].0, p[1].1.len()), (3, 3, 3 * FEAT_LEN));
    assert_eq!(m.weights(&chars("b")).unwrap()[0], 3.0f32.to_bits());
}

#[test]
fn training_of_nets_gives_a_file() {
    let layers = |k: usize| {
        Some(MlpLayers { fc1: linear(FEAT_LEN, MLP_H1), fc2: linear(MLP_H1, MLP_H2), fc3: linear(MLP_H2, k) })
    };
    let mut t: MlpTraining = MlpTraining::new(3);
    assert!(t.add(chars("a"), &vec![8, 3, 8, 5], layers(3)));
    assert!(t.add(chars("b"), &vec![4, 5], None));
    assert!(t.add(chars("c"), &vec![4, 5], layers(2)));
    assert!(!t.add(chars("d"), &vec![4, 5, 6], None));
    assert!(!t.add(chars("d"), &vec![4, 5, 6], layers(2)));
    let c: MlpClassifier = MlpClassifier::from_bytes(&t.finish()).ok().unwrap();
    let counts: Vec<usize> = ["a", "b", "c", "d"].iter().map(|s| c.glyph_count(&chars(s))).collect();
    assert_eq!(counts, vec![3, 0, 0, 0]);
    assert_eq!(c.scored(&chars("a"), &vec![7, 8, 9]), vec![(3u32, 7u32), (5, 8), (8, 9)]);
}

#[test]
fn trained_nets_keep_their_weights() {
    let layer = |rows: usize, cols: usize, from: u32| InferenceLinear {
        rows,
        cols,
        w: (0..(rows * cols) as u32).map(|i| from + i).collect(),
        b: (0..cols as u32).map(|i| from + 7 * i).collect(),
    };
    let layers = |k: usize, from: u32| MlpLayers {
        fc1: layer(FEAT_LEN, MLP_H1, from),
        fc2: layer(MLP_H1, MLP_H2, from + 1),
        fc3: layer(MLP_H2, k, from + 2),
    };
    let mut t: MlpTraining = MlpTraining::new(1);
    assert!(t.add(chars("b"), &vec![5, 4], Some(layers(2, 100))));
    assert!(t.add(chars("x"), &vec![5, 5], Some(layers(1, 300))));
    assert!(t.add(chars("a"), &vec![9, 8, 7], Some(layers(3, 200))));
    let c: MlpClassifier = MlpClassifier::from_bytes(&t.finish()).ok().unwrap();
    assert!(c.nets.get(&chars("x")).is_none());
    for (seq, ids, from) in [("b", vec![4u32, 5], 100u32), ("a", vec![7, 8, 9], 200)] {
        let net: &MlpCharNet = c.nets.get(&chars(seq)).unwrap();
        let want: MlpLayers = layers(ids.len(), from);
        assert_eq!(net.class_map, ids);
        for (got, want) in [(&net.fc1, want.fc1), (&net.fc2, want.fc2), (&net.fc3, want.fc3)] {
            assert_eq!((got.rows, got.cols), (want.rows, want.cols));
            assert_eq!((&got.w, &got.b), (&want.w, &want.b));
        }
    }
}

#[test]
fn models_that_fit_their_format() {
    let mut m: NgramModel = NgramModel::new(1);
    assert!(m.fits());
    m.entries.insert(chars("a"), lda_entry(1, &vec![0; FEAT_LEN], vec![(1, vec![2])], 0, 0));
    assert!(m.fits());
}
