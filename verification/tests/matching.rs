use unscan::cache::NameSet;
use unscan::char_index::NORM_H;
use unscan::char_search::{
    char_weight, compute_features, fonts_with_quorum, keep_above, least_distance, nearest_within,
    or_best, quorum_base, rank_names, tally_votes, CharHits, FontVotes, NamedScore,
};
use unscan::float_bits::{is_at_least, is_larger, key_of, to_unsigned};
use unscan::font_match::{
    identified, judge_font, median_area, min_coverage, pruned_by_geometry, scored_chars,
    select_readings, Candidate, Cell, CropBox, EnsuredFonts, FontIdResult, FontLedger, GeoEntry,
    GeoTable, InkSpan, Reading, WordCells, LEAST,
};
use unscan::ligatures::collapse_ligatures;
use unscan::line_chars::{
    can_extract, cutout, extract_chars_from_boundaries, extract_line_chars, ink_search_rows, is_text_crop, keep_boxes, CharBox,
    CharCrop, CharRegion, Region, WordPlacement,
};
use unscan::ranking::{median, nearest, score_of, top_k_by_prob};
use unscan::raster::GrayImage;
use unscan::segmentation::{segment_characters, uniform_boundaries};
use unscan::seq_map::SeqMap;
use unscan::sorting::{kth_smallest, sorted_unique, stable_order};
use unscan::training::{
    batches, class_of, group_by_glyph, lda_target_dims, padded_weights, pair_count, plan_sequence,
    projection_of, rank_of, subsample_eval, triplet_of, GlyphGroup, ProjectionError, RankCounts,
    TripletDraw,
};

fn b(v: f32) -> u32 {
    v.to_bits()
}

fn chars(s: &str) -> Vec<char> {
    s.chars().collect()
}

#[test]
fn keys_order_as_numbers_do() {
    let v: Vec<f32> = vec![f32::NEG_INFINITY, -2.5, -0.0, 0.0, 1e-40, 0.1, 7.0, f32::INFINITY];
    for x in &v {
        for y in &v {
            assert_eq!(key_of(b(*x)) < key_of(b(*y)), x < y);
            assert_eq!(is_larger(b(*x), b(*y)), x > y);
            assert_eq!(is_at_least(b(*x), b(*y)), x >= y);
        }
    }
    assert!(!is_larger(b(f32::NAN), b(0.0)) && !is_larger(b(0.0), b(f32::NAN)));
}

#[test]
fn whole_parts_saturate() {
    for x in [0.0f32, 0.99, 1.0, 62.7, 1e9, 3e20, -5.0, f32::INFINITY, f32::NAN] {
        assert_eq!(to_unsigned(b(x), u32::MAX as u64), x as u32 as u64, "{}", x);
        assert_eq!(to_unsigned(b(x), u64::MAX), x as u64, "{}", x);
    }
}

#[test]
fn orders_are_stable() {
    let keys: Vec<Vec<i64>> = vec![vec![2], vec![1, 5], vec![2], vec![1]];
    assert_eq!(stable_order(&keys), vec![3usize, 1, 0, 2]);
    assert_eq!(kth_smallest(&vec![9, 3, 3, 7], 2), 7);
    let items: Vec<Vec<char>> = vec![chars("b"), chars("a"), chars("b"), chars("ab")];
    assert_eq!(sorted_unique(&items), vec![chars("a"), chars("ab"), chars("b")]);
}

#[test]
fn maps_keep_their_last_value() {
    let mut m: SeqMap<u32> = SeqMap::new();
    m.insert(chars("b"), 1);
    m.insert(chars("a"), 2);
    m.insert(chars("b"), 3);
    assert_eq!(m.len(), 2);
    assert_eq!(m.get(&chars("b")), Some(&3));
    assert_eq!(m.get(&chars("c")), None);
    assert_eq!(m.keys, vec![chars("a"), chars("b")]);
}

#[test]
fn rankings_by_score() {
    let p: Vec<(u32, u32)> = vec![(5, b(0.1)), (3, b(0.5)), (2, b(0.5)), (9, b(0.2))];
    assert_eq!(top_k_by_prob(&p, 2, false), vec![(2, b(0.5)), (3, b(0.5))]);
    assert_eq!(top_k_by_prob(&p, 9, true), p);
    assert_eq!(score_of(&p, 9), Some(b(0.2)));
    assert_eq!(score_of(&p, 1), None);
    assert_eq!(median(&vec![b(3.0), b(1.0)]), b(3.0));
    assert_eq!(nearest(&vec![b(0.0), b(3.0), b(2.0)], 0), b(2.0));
    assert_eq!(nearest(&vec![b(0.0)], 0), b(f32::INFINITY));
}

#[test]
fn samples_are_grouped_by_glyph() {
    let g: Vec<GlyphGroup> = group_by_glyph(&vec![7, 3, 7, 5]);
    assert_eq!(g.iter().map(|x| x.id).collect::<Vec<u32>>(), vec![3, 5, 7]);
    assert_eq!(g[2].members, vec![0usize, 2]);
    assert_eq!(class_of(&g, 5), Some(1));
    assert_eq!(class_of(&g, 6), None);
    assert!(plan_sequence(&vec![7, 3, 7, 5], 4).is_none());
    assert!(plan_sequence(&vec![7, 3, 7, 5], 3).is_some());
    let d: TripletDraw = TripletDraw { anchor: 2, first: 0, second: 1, other: 0, third: 0 };
    assert_eq!(triplet_of(&g, &d), Some((0, 2, 1)));
    let same: TripletDraw = TripletDraw { anchor: 2, first: 1, second: 1, other: 0, third: 0 };
    assert_eq!(triplet_of(&g, &same), None);
    assert!(pair_count(3) <= 3);
}

#[test]
fn batches_cover_everything() {
    assert_eq!(batches(10, 4), vec![(0usize, 4usize), (4, 8), (8, 10)]);
    assert!(batches(0, 4).is_empty());
}

#[test]
fn drawn_samples_are_different() {
    let all: Vec<usize> = subsample_eval(10, 20, 1);
    assert_eq!(all, (0..10).collect::<Vec<usize>>());
    let some: Vec<usize> = subsample_eval(1000, 50, 1);
    let mut sorted: Vec<usize> = some.clone();
    sorted.sort();
    sorted.dedup();
    assert_eq!((some.len(), sorted.len()), (50, 50));
    assert!(some.iter().all(|&i| i < 1000));
    assert_ne!(some, (0..50).collect::<Vec<usize>>());
}

#[test]
fn ranks_are_counted() {
    assert_eq!(rank_of(&vec![b(0.5), b(0.1), b(0.5), b(0.2)], 0), 2);
    let mut c: RankCounts = RankCounts::new();
    c.record(0);
    c.record(4);
    c.record(5);
    assert_eq!((c.total, c.top1, c.top5), (3, 1, 2));
    let d: RankCounts = c;
    c.accumulate(&d);
    assert_eq!((c.total, c.top1, c.top5), (6, 2, 4));
    assert_eq!((lda_target_dims(20), lda_target_dims(100)), (20, 62));
}

#[test]
fn weights_are_taken_apart() {
    assert!(matches!(projection_of(&Vec::new()), Err(ProjectionError::Empty)));
    assert!(matches!(
        projection_of(&vec![b(3.0), 1]),
        Err(ProjectionError::Length { found: 1, out_dim: 3 })
    ));
    let mut w: Vec<u32> = vec![b(1.0)];
    w.extend(0..63u32);
    assert_eq!(projection_of(&w), Ok((1, (0..63u32).collect::<Vec<u32>>())));
    assert_eq!(padded_weights(&vec![4])[0..2], [4u32, 0]);
}

#[test]
fn ensured_fonts_are_always_considered() {
    let e: EnsuredFonts = EnsuredFonts::new(&vec!["x".to_string(), "y".to_string()]);
    assert!(e.contains("x") && !e.contains("z"));
    let mut allowed: NameSet = NameSet::new();
    allowed.insert("z".to_string());
    assert!(e.considers("x", Some(&allowed)) && e.considers("z", Some(&allowed)));
    assert!(!e.considers("w", Some(&allowed)) && e.considers("w", None));
}

fn cell(ch: char, crop: Option<CropBox>, featured: bool) -> Cell {
    Cell { ch, crop, featured }
}

#[test]
fn extents_come_from_ink_or_cuts() {
    let word: WordCells = WordCells {
        cells: vec![
            cell('a', Some(CropBox { x_min: 2, x_max: 5, y_min: 1, y_max: 3 }), true),
            cell('b', None, false),
        ],
        bounds: vec![0, 6, 11],
        crop_h: 20,
    };
    let s: Vec<InkSpan> = word.ink_spans();
    assert_eq!((s[0].width, s[0].height, s[0].right), (4, 3, 6));
    assert_eq!((s[1].x_min, s[1].x_max, s[1].width, s[1].height), (6, 11, 5, 20));
    let c: Vec<Candidate> = scored_chars(&vec![word]);
    assert_eq!(c.len(), 1);
    assert_eq!((c[0].seg, c[0].pos, c[0].ch, c[0].area), (0, 0, 'a', 12));
    assert_eq!(median_area(&c), 12);
}

#[test]
fn coverage_stays_in_bounds() {
    for n in 1..200usize {
        let m: usize = min_coverage(n);
        assert!(m >= 1 && m <= n);
    }
}

fn geo(seg: usize, pos: usize, ll: f32) -> GeoEntry {
    GeoEntry { seg, pos, h_ll: 0, v_ll: 0, h_err: 0, v_err: 0, ll: b(ll) }
}

#[test]
fn geometry_is_looked_up_by_place() {
    let t: GeoTable = GeoTable::new(vec![geo(0, 1, -1.0), geo(2, 3, -2.0), geo(0, 1, -9.0)]);
    assert_eq!(t.lookup(2, 3).unwrap().ll, b(-2.0));
    assert_eq!(t.lookup(0, 1).unwrap().ll, b(-9.0));
    assert!(t.lookup(1, 0).is_none());
    let v: Vec<GeoEntry> = vec![geo(0, 0, -5.0)];
    assert!(pruned_by_geometry(Some(&v), b(-4.0), false));
    assert!(!pruned_by_geometry(Some(&v), b(-4.0), true));
    assert!(!pruned_by_geometry(Some(&v), b(-6.0), false));
    assert!(pruned_by_geometry(None, b(-4.0), false));
    assert!(!pruned_by_geometry(None, b(-4.0), true));
}

#[test]
fn readings_are_selected() {
    let r = |logit: Option<f32>, prob: Option<f32>, gate: f32| Reading {
        logit: logit.map(b),
        prob: prob.map(b),
        gate: b(gate),
    };
    let v: Vec<Reading> = vec![r(Some(-1.0), Some(0.5), 1.0), r(None, None, 1.0)];
    assert_eq!(select_readings(&v, true), Some(vec![]));
    assert_eq!(select_readings(&v, false), None);
    let seen: Vec<Reading> = vec![
        r(Some(-1.0), Some(0.5), 0.4),
        r(Some(-2.0), Some(0.1), 0.4),
        r(Some(-3.0), Some(0.4), 0.4),
        r(Some(-4.0), Some(0.9), 0.4),
    ];
    assert_eq!(select_readings(&seen, false), Some(vec![0, 2, 3]));
    let few: Vec<Reading> = vec![r(Some(-1.0), Some(0.5), 0.4), r(Some(-2.0), Some(0.1), 0.4)];
    assert_eq!(select_readings(&few, false), None);
    assert_eq!(select_readings(&few, true), Some(vec![0]));
    let odd: Vec<Reading> = vec![r(Some(-1.0), Some(f32::NAN), 0.4), r(Some(-1.0), Some(0.0), -0.5)];
    assert_eq!(select_readings(&odd, false), Some(vec![0, 1]));
}

#[test]
fn fonts_are_judged() {
    let r = Reading { logit: Some(b(-1.0)), prob: Some(b(0.5)), gate: b(0.4) };
    let one: Vec<Reading> = vec![r];
    let near: Vec<GeoEntry> = vec![geo(0, 0, -1.0), geo(0, 1, f32::NAN)];
    let far: Vec<GeoEntry> = vec![geo(0, 0, -1.0), geo(0, 1, -3.0)];
    assert_eq!(judge_font(true, Some(&near), b(-2.0), &one, false), Some(vec![0]));
    assert_eq!(judge_font(true, Some(&far), b(-2.0), &one, false), None);
    assert_eq!(judge_font(true, Some(&far), b(-2.0), &one, true), Some(vec![0]));
    assert_eq!(judge_font(true, Some(&Vec::new()), b(-2.0), &one, false), Some(vec![0]));
    assert_eq!(judge_font(true, None, b(-2.0), &one, false), None);
    assert_eq!(judge_font(false, Some(&near), b(-2.0), &one, false), None);
    assert_eq!(judge_font(true, Some(&near), b(-2.0), &Vec::new(), false), None);
    assert_eq!(judge_font(false, None, b(-2.0), &Vec::new(), true), Some(vec![]));
}

#[test]
fn ensured_fonts_are_in_the_result() {
    let mut l: FontLedger = FontLedger::new();
    l.record("b".to_string(), b(-1.0), true, false);
    l.record("a".to_string(), b(-1.0), true, false);
    l.record("c".to_string(), b(-0.5), true, true);
    let r: FontIdResult = identified(3, l, &vec!["d".to_string()], &vec![true]);
    let keys: Vec<&str> = r.scores.iter().map(|s| s.key.as_str()).collect();
    assert_eq!(&keys[0..3], &["c", "a", "b"]);
    assert!(keys.contains(&"d"));
}

#[test]
fn without_words_no_font_is_listed() {
    let ensured: Vec<String> = vec!["d".to_string()];
    let mut l: FontLedger = FontLedger::new();
    l.record("c".to_string(), b(-0.5), true, true);
    for (ledger, registered) in [(l, true), (FontLedger::new(), true), (FontLedger::new(), false)] {
        let r: FontIdResult = identified(0, ledger, &ensured, &vec![registered]);
        assert!(r.scores.is_empty());
        assert_eq!((r.best, r.truth, r.path_score), (None, None, f32::MIN.to_bits()));
    }
    assert_eq!(LEAST, f32::MIN.to_bits());
    let r: FontIdResult = identified(1, FontLedger::new(), &ensured, &vec![true]);
    assert_eq!(r.scores.len(), 1);
    assert_eq!((r.scores[0].key.as_str(), r.scores[0].score), ("d", LEAST));
}

#[test]
fn words_are_drawn_with_the_ligatures_of_a_font() {
    let all: Vec<char> = ('\u{FB00}'..='\u{FB04}').collect();
    let drawn = |s: &str, l: &Vec<char>| -> String { collapse_ligatures(&chars(s), l).into_iter().collect() };
    assert_eq!(drawn("office", &all), "o\u{FB03}ce");
    assert_eq!(drawn("waffle fly ff", &all), "wa\u{FB04}e \u{FB02}y \u{FB00}");
    assert_eq!(drawn("fffi", &all), "\u{FB00}\u{FB01}");
    assert_eq!(drawn("office", &vec!['\u{FB01}']), "of\u{FB01}ce");
    assert_eq!(drawn("office", &vec!['\u{FB00}', '\u{FB01}']), "o\u{FB00}ice");
    assert_eq!(drawn("office", &Vec::new()), "office");
    assert_eq!(drawn("\u{FB03}x", &all), "\u{FB03}x");
    assert_eq!(drawn("", &all), "");
}

#[test]
fn wide_pages_are_no_hindrance() {
    let mut page: GrayImage = GrayImage::from_pixel(200_000, 4 + NORM_H + 4, 255);
    for y in 4..4 + NORM_H as usize {
        for x in [25usize, 45, 65] {
            for k in 0..10 {
                page.data[y * 200_000 + x + k] = 0;
            }
        }
    }
    let mut w: WordPlacement = placement("aab", 20);
    w.height = NORM_H;
    w.ink = (4, 4 + NORM_H);
    let words: Vec<WordPlacement> = vec![w];
    assert!(can_extract(&page, &words, NORM_H, &Vec::new()));
    let got: Vec<CharCrop> = extract_line_chars(&page, &words, NORM_H, &Vec::<CharBox>::new());
    assert_eq!(got.iter().map(|c| c.ch).collect::<String>(), "ab");
}

#[test]
fn characters_count_differently() {
    assert_eq!(char_weight('g'), 15);
    assert_eq!(char_weight('l'), 5);
    assert_eq!(char_weight('o'), 8);
    assert_eq!(char_weight('k'), 12);
    assert_eq!(char_weight('h'), 10);
}

#[test]
fn fonts_near_enough_vote() {
    let p: Vec<(usize, u32)> = vec![(0, b(4.0)), (1, b(1.0)), (2, b(2.0)), (3, b(1.0))];
    assert_eq!(least_distance(&p), b(1.0));
    assert_eq!(nearest_within(&p, b(2.0)), vec![(1, b(1.0)), (3, b(1.0)), (2, b(2.0))]);
    let hits: Vec<CharHits> = vec![
        CharHits { weight: 15, hits: vec![(2, 7), (1, 8)] },
        CharHits { weight: 5, hits: vec![(2, 9)] },
    ];
    let v: Vec<FontVotes> = tally_votes(&hits);
    assert_eq!(v.len(), 2);
    assert_eq!((v[0].font, v[1].font), (1, 2));
    assert_eq!(v[1].votes, vec![(7u32, 15u32), (9, 5)]);
    assert_eq!(fonts_with_quorum(&v, 2, 3), vec![1usize]);
    assert!(fonts_with_quorum(&v, 2, 2).is_empty());
    assert_eq!((quorum_base(0), quorum_base(1), quorum_base(5)), (1, 1, 3));
}

#[test]
fn fonts_are_ranked_and_cut_off() {
    let n = |name: &str, s: f32| NamedScore { name: name.to_string(), score: b(s) };
    let v: Vec<NamedScore> = vec![n("A[x]", 0.5), n("A", 0.5), n("B", 0.7), n("C", f32::NAN)];
    let r: Vec<NamedScore> = rank_names(&v);
    let names: Vec<&str> = r.iter().map(|x| x.name.as_str()).collect();
    assert_eq!(names, vec!["B", "A", "A[x]"]);
    assert_eq!(keep_above(&r, b(0.6)).len(), 1);
    assert_eq!(keep_above(&r, b(0.5)).len(), 3);
}

#[test]
fn the_index_measures_eight_crossings() {
    let mut img: GrayImage = GrayImage::from_pixel(20, 48, 255);
    for i in 0..40 {
        img.data[i * 20 + 5] = 0;
    }
    assert_eq!(compute_features(img).unwrap().crossings.len(), 8);
    assert!(compute_features(GrayImage::from_pixel(5, 5, 255)).is_none());
}

#[test]
fn uniform_cuts_ascend() {
    assert_eq!(uniform_boundaries(10, 4), vec![0u32, 3, 5, 8, 10]);
    assert_eq!(uniform_boundaries(7, 1), vec![0u32, 7]);
}

#[test]
fn words_are_cut_at_valleys() {
    let mut img: GrayImage = GrayImage::from_pixel(60, 20, 0);
    for y in 0..20 {
        for x in 27..34 {
            img.data[y * 60 + x] = 255;
        }
    }
    let cuts: Vec<u32> = segment_characters(&img, 2);
    assert_eq!(cuts.len(), 3);
    assert_eq!((cuts[0], cuts[2]), (0, 60));
    assert!(cuts[1] >= 27 && cuts[1] <= 34);
    assert_eq!(segment_characters(&img, 1), vec![0u32, 60]);
}

#[test]
fn a_character_is_taken_three_times_at_most() {
    let mut out: Vec<CharRegion> = Vec::new();
    let word: Region = Region { x: 100, y: 7, w: 40, h: 12 };
    extract_chars_from_boundaries(
        &chars("aa aaab"),
        &vec![0, 5, 10, 15, 20, 25, 30, 31],
        word,
        &mut out,
    );
    assert_eq!(out.iter().map(|r| r.ch).collect::<String>(), "aaa");
    assert_eq!((out[0].at.x, out[0].at.w, out[2].at.x), (100, 5, 115));
}

fn placement(text: &str, x: u32) -> WordPlacement {
    WordPlacement {
        text: text.to_string(),
        x_off: x,
        y_off: 4,
        width: 60,
        height: 20,
        confidence: b(90.0),
        ink: (4, 24),
    }
}

#[test]
fn ink_is_searched_around_a_word() {
    let mut w: WordPlacement = placement("word", 0);
    assert_eq!(ink_search_rows(&w, 20, 100), (0, 39));
    w.y_off = 50;
    assert_eq!(ink_search_rows(&w, 30, 90), (35, 90));
}

#[test]
fn text_has_dark_and_light_cells() {
    assert!(!is_text_crop(&GrayImage::from_pixel(10, 10, 255)));
    let mut img: GrayImage = GrayImage::from_pixel(10, 10, 255);
    for i in 0..50 {
        img.data[i] = 0;
    }
    assert!(is_text_crop(&img));
}

#[test]
fn lines_without_words_have_no_characters() {
    let page: GrayImage = GrayImage::from_pixel(100, 40, 255);
    let none: Vec<CharCrop> = extract_line_chars(&page, &Vec::new(), 20, &Vec::<CharBox>::new());
    assert!(none.is_empty());
    let zero: Vec<CharCrop> =
        extract_line_chars(&page, &vec![placement("word", 10)], 0, &Vec::<CharBox>::new());
    assert!(zero.is_empty());
}

/// A page with three bars on it, each ten columns wide.
fn barred() -> GrayImage {
    let mut page: GrayImage = GrayImage::from_pixel(100, 4 + NORM_H + 4, 255);
    for y in 4..4 + NORM_H as usize {
        for x in [25usize, 45, 65] {
            for k in 0..10 {
                page.data[y * 100 + x + k] = 0;
            }
        }
    }
    page
}

#[test]
fn characters_are_cut_from_words() {
    let page: GrayImage = barred();
    let mut w: WordPlacement = placement("aab", 20);
    w.height = NORM_H;
    w.ink = (4, 4 + NORM_H);
    let got: Vec<CharCrop> = extract_line_chars(&page, &vec![w], NORM_H, &Vec::<CharBox>::new());
    assert_eq!(got.iter().map(|c| c.ch).collect::<String>(), "ab");
    assert_eq!((got[0].img.width, got[0].img.height), (17, NORM_H));
    assert_eq!((got[1].img.width, got[1].img.height), (42, NORM_H));
    assert_eq!(got[0].img.data, page.crop(21, 4, 17, NORM_H).data);
    assert_eq!(got[1].img.data, page.crop(38, 4, 42, NORM_H).data);
}

#[test]
fn characters_are_taken_from_boxes() {
    let page: GrayImage = barred();
    let mut w: WordPlacement = placement("aab", 20);
    w.height = NORM_H;
    let at = |ch: char, x: u32, confidence: f32| CharBox {
        ch,
        x,
        y: 4,
        width: 20,
        height: NORM_H,
        confidence: b(confidence),
    };
    let boxes: Vec<CharBox> = vec![
        at('a', 20, 90.0),
        at('a', 20, 74.0),
        at('b', 80, 90.0),
        at('c', 90, 90.0),
        at('a', 40, 75.0),
        at('a', 60, 99.0),
        at('a', 30, 99.0),
    ];
    let got: Vec<CharCrop> = extract_line_chars(&page, &vec![w], NORM_H, &boxes);
    assert_eq!(got.iter().map(|c| c.ch).collect::<String>(), "aaa");
    assert_eq!(got[1].img.data, page.crop(40, 4, 20, NORM_H).data);
    let mut doubtful: WordPlacement = placement("aab", 20);
    doubtful.confidence = b(9.0);
    assert!(extract_line_chars(&page, &vec![doubtful], NORM_H, &boxes).is_empty());
}

#[test]
fn there_is_a_best_font_where_none_was_kept() {
    let score = |name: &str, v: f32| NamedScore { name: name.to_string(), score: b(v) };
    let all: Vec<NamedScore> = vec![
        score("low", -3.0),
        score("odd", f32::NAN),
        score("far", f32::INFINITY),
        score("variant[x]", -1.0),
        score("plain", -1.0),
    ];
    let r: Vec<NamedScore> = or_best(Vec::new(), &all);
    assert_eq!(r.iter().map(|s| (s.name.as_str(), s.score)).collect::<Vec<_>>(), vec![("plain", b(-1.0))]);
    let kept: Vec<NamedScore> = or_best(vec![score("low", -3.0), score("odd", f32::NAN)], &all);
    assert_eq!(kept.iter().map(|s| s.name.as_str()).collect::<Vec<_>>(), vec!["low", "odd"]);
    assert!(or_best(Vec::new(), &vec![score("odd", f32::NAN)]).is_empty());
    assert!(or_best(Vec::new(), &Vec::new()).is_empty());
}

#[test]
fn boxes_are_kept_by_their_pictures() {
    let page: GrayImage = barred();
    let part: GrayImage = cutout(&page, Region { x: 24, y: 3, w: 3, h: 2 });
    assert_eq!((part.width, part.height), (3, 2));
    assert_eq!(part.data, vec![255, 255, 255, 255, 0, 0]);
    let mut w: WordPlacement = placement("aab", 20);
    w.height = NORM_H;
    let at = |ch: char, x: u32| CharBox { ch, x, y: 4, width: 10, height: NORM_H, confidence: b(90.0) };
    let boxes: Vec<CharBox> = vec![at('a', 25), at('b', 45), at('a', 45), at('a', 65), at('a', 25)];
    let text = || GrayImage { width: 2, height: 1, data: vec![0, 255] };
    let blank = || GrayImage { width: 2, height: 1, data: vec![255, 255] };
    let imgs: Vec<GrayImage> = vec![text(), blank(), text(), text(), text()];
    let r: Vec<CharRegion> = keep_boxes(&page, &vec![w], NORM_H, &boxes, &imgs);
    assert_eq!(r.iter().map(|c| (c.ch, c.at.x)).collect::<Vec<_>>(), vec![('a', 25), ('a', 45), ('a', 65)]);
}
