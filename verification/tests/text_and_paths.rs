use unscan::audit::AuditImageDir;
use unscan::bytes;
use unscan::cache::{
    allowlist_at_path, allowlist_keep, cache_dir, default_cache_dir, is_default_cache_dir,
    parse_allowlist_str, parse_list_file, NameSet,
};
use unscan::cache::paths::{
    catalog_bin, chars_dir, fisher_weights_bin, font_scan_bin, geo_cache_bin, glyph_map_bin,
    lda_weights_bin, mahalanobis_weights_bin, mlp_weights_bin, per_font_lda_dir, training_dir,
    triplet_weights_bin,
};
use unscan::cli::{parse_pages, Args};
use unscan::error::ScanTextError;
use unscan::features::AaVariant;
use unscan::paths;
use unscan::reader::{read_f32s, read_u32, BinaryReader};
use unscan::text;

fn chars(s: &str) -> Vec<char> {
    s.chars().collect()
}

fn strings(v: &Vec<Vec<char>>) -> Vec<String> {
    v.iter().map(|p| p.iter().collect()).collect()
}

#[test]
fn split_keeps_empty_parts() {
    assert_eq!(strings(&text::split_chars(&chars("a,,b,"), ',')), vec!["a", "", "b", ""]);
    assert_eq!(strings(&text::split_chars(&chars(""), ',')), vec![""]);
}

#[test]
fn lines_drop_carriage_returns() {
    assert_eq!(strings(&text::lines_of(&chars("a\r\nb\n\nc\r"))), vec!["a", "b", "", "c\r"]);
    assert_eq!(strings(&text::lines_of(&chars("a\n"))), vec!["a"]);
    assert!(text::lines_of(&chars("")).is_empty());
}

#[test]
fn trimming_twice_changes_nothing() {
    let once: Vec<char> = text::trimmed(&chars(" \u{a0}x y\t\n"));
    assert_eq!(once, chars("x y"));
    assert_eq!(text::trimmed(&once), once);
    assert!(text::trimmed(&chars("  ")).is_empty());
}

#[test]
fn decimals_are_read_back() {
    for n in [0u64, 7, 10, 4_294_967_295, u64::MAX] {
        let d: Vec<char> = text::to_decimal(n);
        assert_eq!(d.iter().collect::<String>(), n.to_string());
        assert_eq!(text::parse_unsigned(&d, u64::MAX), Some(n));
    }
    let wide: u128 = u128::MAX;
    assert_eq!(text::to_wide_decimal(wide).iter().collect::<String>(), wide.to_string());
}

#[test]
fn numbers_are_parsed_as_the_standard_library_does() {
    for s in ["", "+", "+5", "-5", "5 ", "007", "4294967295", "4294967296", "12a"] {
        let std: Option<u64> = s.parse::<u32>().ok().map(|v| v as u64);
        assert_eq!(text::parse_unsigned(&chars(s), u32::MAX as u64), std, "{:?}", s);
    }
}

#[test]
fn padding_and_hexadecimals() {
    assert_eq!(text::to_padded(7, 4).iter().collect::<String>(), "0007");
    assert_eq!(text::to_padded(12345, 4).iter().collect::<String>(), "12345");
    assert_eq!(text::to_hex(0xFB01, 4, true).iter().collect::<String>(), "FB01");
    assert_eq!(text::to_hex(0xab, 16, false).iter().collect::<String>(), "00000000000000ab");
}

#[test]
fn parts_and_ends_are_found() {
    let hay: Vec<char> = chars("garamond");
    assert!(text::has_part(&hay, &chars("ramo")));
    assert!(text::has_part(&hay, &chars("")));
    assert!(!text::has_part(&hay, &chars("mono")));
    assert!(text::has_prefix(&hay, &chars("gar")));
    assert!(text::has_suffix(&hay, &chars("mond")));
    assert!(!text::has_suffix(&hay, &chars("xgaramond")));
}

#[test]
fn joined_paths_give_their_name_back() {
    assert_eq!(paths::join("/a/b", "c"), "/a/b/c");
    assert_eq!(paths::join("/a/b/", "c"), "/a/b/c");
    assert_eq!(paths::join("", "c"), "c");
    assert_eq!(paths::join("a", "/c"), "/c");
    assert_eq!(paths::file_name_of("/a/b/c.png"), Some("c.png".to_string()));
    assert_eq!(paths::file_stem_of("/a/b/c.tar.gz"), "c.tar");
    assert_eq!(paths::replace_file_name("/a/b.pdf", "x.json"), "/a/x.json");
    assert_eq!(paths::tmp_for("/a/b.bin"), "/a/b.bin.tmp");
}

#[test]
fn cache_directories_in_order_of_precedence() {
    assert_eq!(default_cache_dir(Some("/home/u")), "/home/u/.cache/unprint");
    assert_eq!(cache_dir(Some("/x"), Some("/y"), Some("/h")), "/x");
    assert_eq!(cache_dir(None, Some("/y"), Some("/h")), "/y");
    assert_eq!(cache_dir(None, None, Some("/h")), "/h/.cache/unprint");
    assert!(is_default_cache_dir(None, None));
    assert!(!is_default_cache_dir(None, Some("/y")));
}

#[test]
fn cache_files_have_their_places() {
    assert_eq!(font_scan_bin("/c"), "/c/font_scan.bin");
    assert_eq!(catalog_bin("/c"), "/c/catalog.bin");
    assert_eq!(geo_cache_bin("/c"), "/c/geo-cache.bin");
    assert_eq!(glyph_map_bin("/c"), "/c/glyph-map.bin");
    assert_eq!(lda_weights_bin("/c"), "/c/lda-weights.bin");
    assert_eq!(fisher_weights_bin("/c"), "/c/fisher-weights.bin");
    assert_eq!(triplet_weights_bin("/c"), "/c/triplet-weights.bin");
    assert_eq!(mahalanobis_weights_bin("/c"), "/c/mahalanobis-weights.bin");
    assert_eq!(mlp_weights_bin("/c"), "/c/mlp-weights.bin");
    assert_eq!(per_font_lda_dir("/c"), "/c/per-font-lda");
    assert_eq!(training_dir("/c"), "/c/training");
    assert_eq!(chars_dir("/c"), "/c/chars");
}

#[test]
fn lists_of_fonts() {
    let file: NameSet = parse_list_file("# comment\n\nfont-a, font-c\n  font-b  \n");
    assert_eq!(file.len(), 3);
    assert!(file.contains("font-c"));
    assert!(file.contains("font-a") && file.contains("font-b"));
    assert_eq!(allowlist_at_path("@/tmp/list"), Some("/tmp/list".to_string()));
    assert_eq!(allowlist_at_path("a,b"), None);
    let from_file: NameSet = parse_allowlist_str("@/tmp/list", Some("x\n#y\nz"), None);
    assert_eq!(from_file.len(), 2);
    let literal: NameSet = parse_allowlist_str("@/tmp/list", None, None);
    assert!(literal.contains("@/tmp/list"));
    let plain: NameSet = parse_allowlist_str("list.txt", None, Some("p,q"));
    assert!(plain.contains("p") && plain.contains("q") && plain.len() == 2);
    assert_eq!(parse_allowlist_str("  ", None, None).len(), 0);
    let set: NameSet = parse_allowlist_str("a, b,,a", None, None);
    assert_eq!(set.len(), 2);
    assert!(set.contains("b"));
    assert!(allowlist_keep("anything", None));
    assert!(allowlist_keep("a", Some(&set)));
    assert!(!allowlist_keep("c", Some(&set)));
}

#[test]
fn pages_are_positive() {
    let pages = parse_pages("1,3-5").unwrap();
    let mut sorted: Vec<usize> = pages.into_iter().collect();
    sorted.sort();
    assert_eq!(sorted, vec![1, 3, 4, 5]);
    assert_eq!(parse_pages("0"), Err("page numbers are 1-indexed".to_string()));
    assert_eq!(parse_pages("0-2"), Err("page numbers are 1-indexed".to_string()));
    assert_eq!(parse_pages("5-3"), Err("invalid range: 5-3".to_string()));
    assert_eq!(parse_pages("x"), Err("bad page number: x".to_string()));
    assert_eq!(parse_pages("1- y"), Err("bad page number:  y".to_string()));
    assert_eq!(parse_pages(" , "), Err("empty page specification".to_string()));
}

fn args() -> Args {
    Args {
        input: None,
        output: None,
        audit: None,
        index: false,
        index_path: None,
        train_lda: false,
        test: None,
        render_ref_chars: None,
        weight_explicit: Vec::new(),
        render_scale: 1,
        render_aa: "native".to_string(),
        render_binarize: None,
    }
}

#[test]
fn arguments_are_checked() {
    let mut a: Args = args();
    assert_eq!(a.validate(), Err("Input file required (or use --index)".to_string()));
    a.input = Some("in.pdf".to_string());
    assert_eq!(a.validate(), Err("Output path required (use -o / --output)".to_string()));
    a.test = Some("gt.pdf".to_string());
    assert_eq!(a.validate(), Ok(()));
    assert_eq!(a.gt_vector_pdf(), Some("gt.pdf"));
    a.test = None;
    a.output = Some("/o/out.pdf".to_string());
    assert_eq!(a.validate(), Ok(()));
    assert_eq!(a.audit_log_path(), "/o/out.audit.json");
    assert!(!a.full_audit());
    a.audit = Some("/aud".to_string());
    assert_eq!(a.audit_log_path(), "/aud/audit.json");
    assert_eq!(a.diag_seg_dir(), Some("/aud"));
    assert!(a.full_audit());
    assert_eq!(a.resolved_index_path(Some("/h")), "/h/.cache/unscan/char-index.bin");
    assert_eq!(a.resolved_index_path(None), "/tmp/.cache/unscan/char-index.bin");
    a.index_path = Some("/i.bin".to_string());
    assert_eq!(a.resolved_index_path(Some("/h")), "/i.bin");
}

#[test]
fn render_parameters_come_from_the_arguments() {
    let mut a: Args = args();
    a.render_scale = 3;
    a.render_aa = "SHARPEN".to_string();
    a.render_binarize = Some(0);
    let p = a.render_params();
    assert_eq!(p.render_scale, 3);
    assert!(p.aa == AaVariant::Sharpen);
    assert_eq!(p.binarize_threshold, None);
    a.render_aa = "wrong".to_string();
    a.render_binarize = Some(128);
    assert!(a.render_params().aa == AaVariant::Native);
    assert_eq!(a.render_params().binarize_threshold, Some(128));
}

#[test]
fn numbers_and_texts_in_bytes() {
    let mut out: Vec<u8> = Vec::new();
    bytes::put32(&mut out, 0x0403_0201);
    bytes::put64(&mut out, 0x0807_0605_0403_0201);
    bytes::put32s(&mut out, &vec![1u32, 2]);
    assert_eq!(&out[0..4], &[1u8, 2, 3, 4]);
    assert_eq!(bytes::read32(&out, 0), 0x0403_0201);
    assert_eq!(bytes::read64(&out, 4), 0x0807_0605_0403_0201);
    assert_eq!(bytes::read32s(&out, 12, 2), vec![1u32, 2]);
    let mut t: Vec<u8> = Vec::new();
    bytes::put_text(&mut t, "héb");
    assert_eq!(bytes::read_text(&t, 4, 4), "héb");
}

#[test]
fn broken_text_is_repaired() {
    assert_eq!(bytes::read_text(&[0x61u8, 0xff, 0x62], 0, 3), "a\u{FFFD}b");
}

#[test]
fn reading_goes_on_behind_what_was_read() {
    let data: Vec<u8> = vec![1, 0, 0, 0, 2, 0, 0, 0, 3, 0, 0, 0, 9];
    let mut r = BinaryReader::new(&data, 0);
    assert_eq!(r.read_u32(), Ok(1));
    assert_eq!(r.read_f32s(2), Ok(vec![2u32, 3]));
    assert_eq!(r.pos, 12);
    assert_eq!(r.read_u32(), Err("truncated header data".to_string()));
    assert_eq!(r.read_f32s(1), Err("truncated weight data".to_string()));
    assert_eq!(r.pos, 12);
    let mut pos: usize = 4;
    assert_eq!(read_u32(&data, &mut pos), Ok(2));
    assert_eq!(read_f32s(&data, &mut pos, 1), Ok(vec![3u32]));
    assert_eq!(read_u32(&data, &mut pos), Err("truncated u32".to_string()));
    assert_eq!(read_f32s(&data, &mut pos, 1), Err("truncated f32 array".to_string()));
    assert_eq!(read_f32s(&data, &mut pos, usize::MAX), Err("truncated f32 array".to_string()));
    assert_eq!(pos, 12);
}

#[test]
fn images_stand_beside_the_log() {
    let d: AuditImageDir = AuditImageDir::from_audit_path("/out/doc.audit.json");
    assert_eq!(d.dir, "/out/doc.audit");
    assert_eq!(d.rel_dir(), "doc.audit");
    let e: AuditImageDir = AuditImageDir::from_audit_path("/out/audit.json");
    assert_eq!(e.dir, "/out/audit.audit");
}

#[test]
fn messages_of_errors() {
    assert_eq!(ScanTextError::Io("gone".to_string()).message(), "I/O error: gone");
    assert_eq!(ScanTextError::Ocr("x".to_string()).message(), "OCR error: x");
    assert_eq!(ScanTextError::ImageLoad("x".to_string()).message(), "Image load error: x");
    assert_eq!(
        ScanTextError::UnsupportedFormat("xyz".to_string()).message(),
        "Unsupported file format: .xyz"
    );
    assert_eq!(ScanTextError::PdfGen("x".to_string()).message(), "PDF generation error: x");
    assert_eq!(ScanTextError::Serialize("x".to_string()).message(), "Serialization error: x");
    assert_eq!(
        ScanTextError::NoFonts.message(),
        "No fonts found on the system.\n\
         For Microsoft fonts:  apt install ttf-mscorefonts-installer\n\
         For LaTeX fonts:      apt install fonts-lmodern texlive-fonts-recommended\n\
         Or supply --font-dir pointing at a directory of .ttf / .otf files."
    );
}

#[test]
fn joined_page_lists_hold_the_pages_of_both() {
    let first = parse_pages("1,3-5").unwrap();
    let second = parse_pages("4-7").unwrap();
    let both = parse_pages("1,3-5,4-7").unwrap();
    assert_eq!(both, first.union(&second).copied().collect());
    assert_eq!(both, parse_pages("4-7,1,3-5").unwrap());
    assert_eq!(both.len(), 6);
}
