use unscan::compare::{
    combined_name, compose_panel, crop_area, make_panel, panel_name, sanitize_filename,
    stack_panels, CropArea, TARGET_WIDTH,
};
use unscan::diagnostic::{
    b64_encode, crop_path, html_escape, img_data_uri, render_path, CiCandidate, DiagCollector,
    LineDiag, SearchNote, WordCandidateScore, WordDiag,
};
use unscan::page_scan::{
    column_ink, comparison_chart, font_grid, ink_runs, line_words, overlay, row_ink, sample_char,
    sample_image, sample_word, scan_samples, simple_stats, text_lines, ScanSample, SimpleStats,
};
use unscan::raster::{GrayImage, RgbImage};
use unscan::specimen::{
    assemble_lines, best_of, best_shift, confidence_texts, detect_section, font_matches_section,
    line_winner, name_fits, parse_tsv, section_in, section_name, ssim_sums, usable_word,
    vshift_image, word_crop, Scoreboard, SsimSums, TextLine, TsvWord, LEAST,
};

#[test]
fn escaping_leaves_no_markup() {
    assert_eq!(html_escape("a<b> & \"c\""), "a&lt;b&gt; &amp; &quot;c&quot;");
    assert_eq!(html_escape("&lt;"), "&amp;lt;");
    assert_eq!(html_escape(""), "");
}

#[test]
fn base64_of_all_remainders() {
    assert_eq!(b64_encode(b""), "");
    assert_eq!(b64_encode(b"f"), "Zg==");
    assert_eq!(b64_encode(b"fo"), "Zm8=");
    assert_eq!(b64_encode(b"foo"), "Zm9v");
    assert_eq!(b64_encode(b"foobar"), "Zm9vYmFy");
    assert_eq!(b64_encode(&[0xfbu8, 0xff, 0xbf]), "+/+/");
}

#[test]
fn images_stand_in_the_page() {
    assert_eq!(img_data_uri("", Some(b"x")), "");
    assert_eq!(img_data_uri("crops/a.png", None), "crops/a.png");
    assert_eq!(img_data_uri("crops/a.png", Some(b"foo")), "data:image/png;base64,Zm9v");
}

#[test]
fn image_files_of_a_report() {
    assert_eq!(crop_path(1, 2, 3, "a b/ç!"), "crops/p1_l2_w3_a_b_ç_.png");
    assert_eq!(crop_path(0, 0, 0, "abcdefghijklmnopq"), "crops/p0_l0_w0_abcdefghijklmno.png");
    assert_eq!(render_path(1, 2, 3, "/f/My Font-1.ttf"), "renders/p1_l2_w3_My_Font-1.ttf.png");
}

fn note() -> SearchNote {
    SearchNote {
        thoroughness: "1.0".to_string(),
        radius: "1.50".to_string(),
        gate: "0.50".to_string(),
    }
}

#[test]
fn a_report_without_pages() {
    let html: String = DiagCollector::new(note()).write_html();
    assert!(html.starts_with("<!DOCTYPE html>\n<html><head>"));
    assert!(html.ends_with("</script></body></html>"));
    assert!(html.contains("* { box-sizing: border-box; }"));
    assert!(html.contains(
        "<strong>thoroughness: 1.0</strong> &mdash;\nkd-tree radius factor: 1.50, \
         quality gate: 0.50, quorum divisor: 1.0</div>"
    ));
    assert!(html.contains("<div class=\"num\">0</div><div class=\"lbl\">lines</div>"));
}

#[test]
fn a_report_tells_lines_and_words() {
    let mut d: DiagCollector = DiagCollector::new(note());
    d.start_page(4);
    let cand = |key: &str, ssim: f32| WordCandidateScore {
        font_key: key.to_string(),
        ssim: ssim.to_bits(),
        ssim_text: "S".to_string(),
        gap_text: "G".to_string(),
        dy_text: "-1".to_string(),
        image: "I".to_string(),
    };
    let word: WordDiag = WordDiag {
        text: "<w>".to_string(),
        width: 30,
        height: 12,
        image: "C".to_string(),
        candidates: vec![cand("d/a.ttf", 0.7), cand("d/b.ttf", 0.71), cand("c", 0.4)],
        winner: Some("d/b.ttf".to_string()),
    };
    let ci = |key: &str| CiCandidate {
        font_key: key.to_string(),
        score: "s".to_string(),
        gap: "g".to_string(),
    };
    d.current_page_mut().lines.push(LineDiag {
        text: "line & text".to_string(),
        confidence: "93".to_string(),
        ci_candidates: vec![ci("x/Lato-Bold"), ci("y/Arial")],
        words: vec![word],
        word_rerank_winner: Some("W".to_string()),
        final_font: Some("Lato Bold".to_string()),
        final_score: None,
    });
    let html: String = d.write_html();
    assert!(html.contains("<h2>Page 4</h2>\n<div class=\"line-block correct\" data-matched=\"yes\">"));
    assert!(html.contains("<div class=\"line-text\">line &amp; text</div>"));
    assert!(html.contains(
        "OCR conf: <b>93</b> | Final font: <b>Lato Bold</b> | Score: <b>—</b>\n  \
         | Word rerank: <b>W</b>\n</div>"
    ));
    assert!(html.contains("CI candidates (2 fonts passed quorum)"));
    assert!(html.contains(
        "<tr class=\"highlight\"><td>1</td><td>Lato-Bold</td><td>s</td><td>g</td><td>top 1</td></tr>"
    ));
    assert!(html.contains("<tr><td>2</td><td>Arial</td>"));
    assert!(html.contains("<h4>\"&lt;w&gt;\" (30×12)</h4>"));
    assert!(html.contains("<img class=\"rank0\" src=\"I\">\n<div class=\"label\">a.ttf</div>\n<div class=\"ssim mid\">SSIM: S (dy=-1)</div>"));
    assert!(html.contains("<img class=\"winner\" src=\"I\">\n<div class=\"label\">b.ttf</div>\n<div class=\"ssim high\">SSIM: S (dy=-1) ΔG</div>"));
    assert!(html.contains("<div class=\"ssim low\">"));
    assert!(html.contains("<span class=\"vote-chip top\">→ b.ttf</span>"));
    assert!(html.contains("<div class=\"num\">1</div><div class=\"lbl\">fonts matched</div>"));
}

#[test]
fn pictures_of_lines_have_names() {
    assert_eq!(sanitize_filename("a b/c"), "a_b_c");
    assert_eq!(panel_name(0, 7, "Hi"), "p1-line007-Hi.png");
    assert_eq!(panel_name(2, 1234, "x"), "p3-line1234-x.png");
    assert_eq!(combined_name(0), "p1-combined.png");
}

#[test]
fn the_margin_stays_on_the_page() {
    let a: CropArea = crop_area(100, 50, 2, 10, 20, 10);
    assert_eq!((a.x, a.y), (0, 2));
    assert!(a.x + a.w <= 100 && a.y + a.h <= 50);
    assert!(a.x + a.w >= 22 && a.y + a.h >= 20);
}

#[test]
fn a_panel_shows_scan_and_rendering() {
    let scan: GrayImage = GrayImage::from_pixel(TARGET_WIDTH, 3, 10);
    let rendered: GrayImage = GrayImage::from_pixel(TARGET_WIDTH, 3, 20);
    let p: RgbImage = compose_panel(&scan, &rendered);
    let at = |y: u32| {
        let i: usize = (y * TARGET_WIDTH + 5) as usize * 3;
        (p.data[i], p.data[i + 1], p.data[i + 2])
    };
    assert_eq!((p.width, p.height), (800, 46));
    assert_eq!(at(0), (200, 220, 255));
    assert_eq!(at(18), (10, 10, 10));
    assert_eq!(at(21), (255, 0, 0));
    assert_eq!(at(23), (200, 255, 200));
    assert_eq!(at(41), (20, 20, 20));
    assert_eq!(at(45), (100, 100, 100));
    let q: RgbImage = make_panel(&scan, &rendered, 3);
    assert_eq!(q.data, p.data);
    let both: RgbImage = stack_panels(&vec![p, q]).unwrap();
    assert_eq!((both.width, both.height), (800, 92));
    assert!(stack_panels(&Vec::new()).is_none());
}

fn page(rows: &[&str]) -> GrayImage {
    let mut data: Vec<u8> = Vec::new();
    for r in rows {
        for c in r.chars() {
            data.push(if c == '#' { 0 } else { 255 });
        }
    }
    GrayImage { width: rows[0].len() as u32, height: rows.len() as u32, data }
}

#[test]
fn runs_end_before_the_last_value() {
    assert_eq!(ink_runs(&vec![0, 5, 5, 0, 5, 0, 5, 5], 4, 1), vec![(1u32, 3u32), (4, 5)]);
    assert_eq!(ink_runs(&vec![5, 5, 5, 0], 4, 3), vec![(0u32, 3u32)]);
    assert_eq!(ink_runs(&vec![5, 5, 0], 4, 3), Vec::<(u32, u32)>::new());
    assert!(ink_runs(&Vec::new(), 0, 0).is_empty());
}

#[test]
fn ink_is_counted_by_rows_and_columns() {
    let p: GrayImage = page(&["#..", "##.", "..."]);
    assert_eq!(row_ink(&p), vec![1u32, 2, 0]);
    assert_eq!(column_ink(&p, 0, 3), vec![2u32, 1, 0]);
    assert_eq!(column_ink(&p, 1, 2), vec![1u32, 1, 0]);
}

#[test]
fn lines_and_words_of_a_page() {
    let blank: String = ".".repeat(60);
    let inked: String = format!("..{}..{}..........", "#".repeat(12), "#".repeat(34));
    let mut rows: Vec<&str> = vec![blank.as_str(); 2];
    rows.extend(vec![inked.as_str(); 8]);
    rows.extend(vec![blank.as_str(); 2]);
    let p: GrayImage = page(&rows);
    let lines: Vec<(u32, u32)> = text_lines(&p);
    assert_eq!(lines, vec![(2u32, 10u32)]);
    let words: Vec<(u32, u32)> = line_words(&p, 2, 10);
    assert_eq!(words, vec![(2u32, 14u32), (16, 50)]);
    assert_eq!(sample_word(&words), Some((16, 50)));
    let s: Vec<ScanSample> = scan_samples(&p, &lines);
    assert_eq!(s.len(), 1);
    assert_eq!((s[0].line, s[0].x, s[0].y, s[0].width, s[0].height), (0, 16, 2, 34, 8));
    assert_eq!((s[0].char_x, s[0].char_w), (11, 6));
    let word: GrayImage = sample_image(&p, s[0]);
    assert_eq!((word.width, word.height), (34, 8));
    let c: GrayImage = sample_char(&p, s[0], 48);
    assert_eq!((c.width, c.height), (36, 48));
    let same: GrayImage = sample_char(&p, s[0], 8);
    assert_eq!(same.data, vec![0u8; 48]);
}

#[test]
fn only_the_first_three_words_are_tried() {
    assert_eq!(sample_word(&vec![(0, 10), (20, 30), (40, 50), (60, 90)]), None);
    assert_eq!(sample_word(&vec![(0, 10), (20, 40), (50, 90)]), Some((20, 40)));
}

#[test]
fn ink_of_a_character() {
    let s: SimpleStats = simple_stats(&page(&["....", ".#..", ".##."])).unwrap();
    assert_eq!((s.ink, s.row_sum), (3, 5));
    assert_eq!((s.bounds.min_x, s.bounds.max_x, s.bounds.min_y, s.bounds.max_y), (1, 2, 1, 2));
    assert!(simple_stats(&page(&[".."])).is_none());
}

#[test]
fn overlays_are_cut_off() {
    let mut c: GrayImage = GrayImage::from_pixel(3, 2, 9);
    overlay(&mut c, &GrayImage::from_pixel(2, 2, 1), 2, 1);
    assert_eq!(c.data, vec![9u8, 9, 9, 9, 9, 1]);
    overlay(&mut c, &GrayImage::from_pixel(2, 2, 1), 3, 0);
    assert_eq!(c.data, vec![9u8, 9, 9, 9, 9, 1]);
}

#[test]
fn charts_of_fonts() {
    let img = |v: u8| GrayImage::from_pixel(10, 10, v);
    let g: GrayImage = font_grid(&vec![vec![Some(img(1)), None], vec![None, Some(img(2))]], 2);
    assert_eq!((g.width, g.height), (128, 128));
    assert_eq!(g.get(32, 32), 1);
    assert_eq!(g.get(96, 96), 2);
    assert_eq!(g.get(96, 32), 240);
    assert!(comparison_chart(&Vec::new(), &vec![img(1)]).is_none());
    let c: GrayImage = comparison_chart(&vec![img(3), img(4)], &vec![img(5)]).unwrap();
    assert_eq!((c.width, c.height), (128, 128));
    assert_eq!((c.get(32, 32), c.get(32, 96), c.get(96, 96)), (3, 4, 5));
    assert_eq!((c.get(63, 0), c.get(63, 127), c.get(62, 0)), (100, 100, 240));
}

#[test]
fn sections_by_their_headings() {
    assert_eq!(detect_section("4. THE BASKERVILLE page"), Some("baskerville"));
    assert_eq!(detect_section("The Slab Serif"), Some("zilla"));
    assert_eq!(detect_section("garamond"), None);
    assert_eq!(detect_section("the bodoni and the caslon"), Some("caslon"));
    assert_eq!(section_in("the garamond"), Some(0));
    assert_eq!(section_in("THE GARAMOND"), None);
    assert_eq!(section_name(3), "bodoni");
    assert!(font_matches_section("Zilla Slab 400", "zilla"));
    assert!(!font_matches_section("Zilla Slab 400", "slab"));
    assert!(name_fits("eb garamond", "garamond"));
    assert!(!name_fits("Garamond", "garamond"));
}

#[test]
fn sums_over_a_common_canvas() {
    let a: GrayImage = GrayImage { width: 2, height: 1, data: vec![10, 20] };
    let b: GrayImage = GrayImage { width: 1, height: 2, data: vec![1, 2] };
    let s: SsimSums = ssim_sums(&a, &b).unwrap();
    assert_eq!(s.cells, 4);
    assert_eq!((s.a, s.b), (540, 513));
    assert_eq!(s.aa, 100 + 400 + 2 * 65025);
    assert_eq!(s.bb, 1 + 4 + 2 * 65025);
    assert_eq!(s.ab, 10 + 20 * 255 + 255 * 2 + 65025);
    let t: SsimSums = ssim_sums(&b, &a).unwrap();
    assert_eq!((t.a, t.b, t.aa, t.bb, t.ab), (s.b, s.a, s.bb, s.aa, s.ab));
    let none: GrayImage = GrayImage { width: 0, height: 0, data: Vec::new() };
    assert!(ssim_sums(&none, &none).is_none());
}

#[test]
fn shifting_brings_in_white() {
    let img: GrayImage = GrayImage { width: 1, height: 3, data: vec![1, 2, 3] };
    assert_eq!(vshift_image(&img, 1).data, vec![255u8, 1, 2]);
    assert_eq!(vshift_image(&img, -2).data, vec![3u8, 255, 255]);
    assert_eq!(vshift_image(&img, 0).data, img.data);
    assert_eq!(vshift_image(&img, i32::MIN).data, vec![255u8; 3]);
}

#[test]
fn the_first_of_the_best_is_taken() {
    let b = |v: f32| v.to_bits();
    assert_eq!(best_of(&vec![b(0.1), b(0.9), b(0.9)]), Some(1));
    assert_eq!(best_of(&vec![b(f32::NAN), b(-1.0)]), Some(1));
    assert_eq!(best_of(&vec![b(f32::NAN), b(f32::MIN)]), None);
    assert_eq!(best_of(&Vec::new()), None);
    assert_eq!(best_shift(&vec![b(0.0), b(0.5), b(0.7)], 1), (b(0.7), 1));
    assert_eq!(best_shift(&vec![b(f32::NAN)], 0), (LEAST, 0));
    assert_eq!(LEAST, f32::MIN.to_bits());
}

const TABLE: &str = "level\tpage\tblock\tpar\tline\tword\tleft\ttop\twidth\theight\tconf\ttext\n\
5\t1\t2\t1\t1\t1\t50\t10\t30\t12\t96.5\tworld\n\
5\t1\t1\t1\t1\t1\t9\t10\t30\t12\t91\t there \n\
5\t1\t2\t1\t1\t2\t5\t10\t30\t12\t40\thello\n\
4\t1\t2\t1\t1\t0\t5\t10\t30\t12\t90\tnot a word\n\
5\t1\t2\t1\t1\t3\t5\t10\t2\t12\t90\tslim\n\
5\t1\t2\t1\t1\t4\t5\t10\t30\t12\t-1\tneg\n\
5\t1\t2\t1\t1\t5\t5\t10\t30\t12\t90\t  \n\
short line\n";

fn words() -> Vec<TsvWord> {
    let confs: Vec<u32> = confidence_texts(TABLE)
        .iter()
        .map(|s| s.parse::<f32>().unwrap_or(-1.0).to_bits())
        .collect();
    parse_tsv(TABLE, &confs)
}

#[test]
fn words_of_a_table() {
    let w: Vec<TsvWord> = words();
    let texts: Vec<&str> = w.iter().map(|x| x.text.as_str()).collect();
    assert_eq!(texts, vec!["world", "there", "hello"]);
    assert_eq!((w[0].x, w[0].y, w[0].width, w[0].height), (50, 10, 30, 12));
    assert_eq!((w[0].block_num, w[0].par_num, w[0].line_num), (2, 1, 1));
    assert_eq!(w[0].conf, 96.5f32.to_bits());
    assert_eq!(confidence_texts(TABLE).len(), 8);
    assert_eq!(confidence_texts(TABLE)[7], "");
    assert!(parse_tsv(TABLE, &Vec::new()).is_empty());
    assert!(parse_tsv("", &Vec::new()).is_empty());
}

#[test]
fn lines_ascend_and_hold_all_words() {
    let l: Vec<TextLine> = assemble_lines(&words());
    assert_eq!(l.len(), 2);
    assert_eq!((l[0].block_num, l[0].text.as_str()), (1, "there"));
    assert_eq!((l[1].block_num, l[1].text.as_str()), (2, "hello world"));
    assert_eq!(l.iter().map(|x| x.words.len()).sum::<usize>(), 3);
}

#[test]
fn words_that_count() {
    let w: Vec<TsvWord> = words();
    assert!(usable_word(&w[0]));
    assert!(!usable_word(&w[2]));
    assert_eq!(word_crop(&w[0], 60, 100), Some((50, 10, 10, 12)));
    assert_eq!(word_crop(&w[0], 50, 100), None);
    assert_eq!(word_crop(&w[0], 100, 10), None);
}

#[test]
fn votes_and_scores() {
    assert_eq!(line_winner(&vec![0, 2, 1, 2]), Some(3));
    assert_eq!(line_winner(&vec![0, 0]), None);
    let mut s: Scoreboard = Scoreboard::new();
    assert_eq!(s.record("eb garamond 400"), None);
    assert!(s.enter("the garamond"));
    assert!(!s.enter("a line"));
    assert_eq!(s.record("eb garamond 400"), Some(true));
    assert_eq!(s.record("libre caslon text 400"), Some(false));
    assert!(s.enter("the caslon"));
    assert_eq!(s.record("libre caslon text 400"), Some(true));
    assert_eq!(s.totals(), (2, 3));
    assert_eq!(s.correct, vec![1u64, 1, 0, 0, 0]);
    assert_eq!(s.scored, vec![2u64, 1, 0, 0, 0]);
}
