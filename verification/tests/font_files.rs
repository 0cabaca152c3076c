use ab_glyph::{Font, FontRef};
use unscan::char_render::{
    cache_dir, canvas_accepted, code_point_name, darken, finish_render, first_ink_height,
    glyph_cache_path, hash_cache_path, index_canvas_accepted, resolve_glyph, RenderParams,
};
use unscan::features::AaVariant;
use unscan::font_identity::{
    font_class_str, has_sound_header, is_ligature, label, name_with, names_in, read_face,
    read_file_facts, read_italic,
    read_name_ids, read_typographic_family, read_weight_class, typographic_in, weight_or_normal,
    FileFacts, FontClass, FontFacts, LabelRecord, NameIds, NameRecord,
};
use unscan::raster::GrayImage;

fn put16(out: &mut Vec<u8>, v: u16) {
    out.extend_from_slice(&v.to_be_bytes());
}

fn put32(out: &mut Vec<u8>, v: u32) {
    out.extend_from_slice(&v.to_be_bytes());
}

fn head() -> Vec<u8> {
    let mut t: Vec<u8> = vec![0; 54];
    t[18] = 0x03;
    t[19] = 0xe8;
    t
}

fn hhea() -> Vec<u8> {
    let mut t: Vec<u8> = vec![0; 36];
    t[35] = 1;
    t
}

fn maxp() -> Vec<u8> {
    let mut t: Vec<u8> = Vec::new();
    put32(&mut t, 0x5000);
    put16(&mut t, 40);
    t
}

/// The characters from A on have the glyphs from twenty on.
fn cmap() -> Vec<u8> {
    let mut t: Vec<u8> = Vec::new();
    put16(&mut t, 0);
    put16(&mut t, 1);
    put16(&mut t, 3);
    put16(&mut t, 1);
    put32(&mut t, 12);
    put16(&mut t, 6);
    put16(&mut t, 16);
    put16(&mut t, 0);
    put16(&mut t, 65);
    put16(&mut t, 3);
    put16(&mut t, 20);
    put16(&mut t, 21);
    put16(&mut t, 22);
    t
}

fn os2(weight: u16, italic: bool) -> Vec<u8> {
    let mut t: Vec<u8> = vec![0; 78];
    t[4] = (weight >> 8) as u8;
    t[5] = (weight & 0xff) as u8;
    t[63] = if italic { 1 } else { 0 };
    t
}

fn name(records: &[(u16, u16, &str)]) -> Vec<u8> {
    let mut t: Vec<u8> = Vec::new();
    put16(&mut t, 0);
    put16(&mut t, records.len() as u16);
    put16(&mut t, 6 + 12 * records.len() as u16);
    let mut storage: Vec<u8> = Vec::new();
    for &(platform, id, s) in records {
        let utf16: Vec<u16> = s.encode_utf16().collect();
        put16(&mut t, platform);
        put16(&mut t, if platform == 3 { 1 } else { 0 });
        put16(&mut t, 0);
        put16(&mut t, id);
        put16(&mut t, 2 * utf16.len() as u16);
        put16(&mut t, storage.len() as u16);
        for u in utf16 {
            put16(&mut storage, u);
        }
    }
    t.extend_from_slice(&storage);
    t
}

fn font(tables: &[(&[u8; 4], Vec<u8>)]) -> Vec<u8> {
    let mut out: Vec<u8> = Vec::new();
    put32(&mut out, 0x0001_0000);
    put16(&mut out, tables.len() as u16);
    put16(&mut out, 0);
    put16(&mut out, 0);
    put16(&mut out, 0);
    let mut at: u32 = 12 + 16 * tables.len() as u32;
    for (tag, t) in tables {
        out.extend_from_slice(&tag[..]);
        put32(&mut out, 0);
        put32(&mut out, at);
        put32(&mut out, t.len() as u32);
        at += t.len() as u32;
    }
    for (_, t) in tables {
        out.extend_from_slice(t);
    }
    out
}

fn sample_font() -> Vec<u8> {
    font(&[
        (b"OS/2", os2(625, true)),
        (b"cmap", cmap()),
        (b"head", head()),
        (b"hhea", hhea()),
        (b"maxp", maxp()),
        (
            b"name",
            name(&[
                (1, 1, "mac"),
                (3, 1, "Fam"),
                (3, 1, "Second"),
                (3, 2, "Bold"),
                (3, 4, ""),
                (3, 4, "Fam Bold"),
                (3, 6, "Fam-Bold"),
                (3, 16, "Typo"),
            ]),
        ),
    ])
}

#[test]
fn names_are_read_from_a_font() {
    let ids: NameIds = read_name_ids(&sample_font());
    assert_eq!(ids.family, "Fam");
    assert_eq!(ids.subfamily, "Bold");
    assert_eq!(ids.full_name, "Fam Bold");
    assert_eq!(ids.postscript, "Fam-Bold");
}

#[test]
fn bytes_that_are_no_font_have_no_names() {
    let ids: NameIds = read_name_ids(&[1u8, 2, 3]);
    assert_eq!((ids.family.as_str(), ids.postscript.as_str()), ("", ""));
    assert_eq!(read_weight_class(&[1u8, 2, 3]), 400);
    assert!(!read_italic(&[1u8, 2, 3]));
    assert_eq!(read_typographic_family(&[1u8, 2, 3], "F"), "F");
}

#[test]
fn weight_and_slant_are_read_from_a_font() {
    assert_eq!(read_weight_class(&sample_font()), 625);
    assert!(read_italic(&sample_font()));
    let plain: Vec<u8> = font(&[
        (b"OS/2", os2(300, false)),
        (b"head", head()),
        (b"hhea", hhea()),
        (b"maxp", maxp()),
    ]);
    assert_eq!(read_weight_class(&plain), 300);
    assert!(!read_italic(&plain));
    let bare: Vec<u8> = font(&[(b"head", head()), (b"hhea", hhea()), (b"maxp", maxp())]);
    assert_eq!(read_weight_class(&bare), 400);
}

#[test]
fn the_first_name_that_is_not_empty_counts() {
    let table: Vec<NameRecord> = vec![
        (1, None),
        (1, Some(String::new())),
        (1, Some("a".to_string())),
        (1, Some("b".to_string())),
    ];
    assert_eq!(name_with(&table, 1), "a");
    assert_eq!(name_with(&table, 2), "");
    assert_eq!(names_in(&table).family, "a");
}

#[test]
fn the_typographic_family_falls_back_on_the_family() {
    assert_eq!(read_typographic_family(&sample_font(), "Fam"), "Typo");
    let undecodable: Vec<NameRecord> = vec![(16, None), (16, Some("late".to_string()))];
    assert_eq!(typographic_in(&undecodable, "Fam"), "Fam");
    assert_eq!(typographic_in(&Vec::new(), "Fam"), "Fam");
    assert_eq!(weight_or_normal(None), 400);
    assert_eq!(weight_or_normal(Some(1)), 1);
}

#[test]
fn classes_and_ligatures() {
    assert_eq!(font_class_str(FontClass::Serif), "serif");
    assert_eq!(font_class_str(FontClass::Sans), "sans");
    assert_eq!(font_class_str(FontClass::Mono), "mono");
    assert_eq!(font_class_str(FontClass::Unknown), "unknown");
    assert!(is_ligature('\u{FB00}') && is_ligature('\u{FB04}'));
    assert!(!is_ligature('\u{FB05}') && !is_ligature('f'));
}

#[test]
fn a_label_tells_all_of_a_sample() {
    let facts: FontFacts = FontFacts {
        path: "/f.ttf".to_string(),
        key: "f/400".to_string(),
        postscript_name: "FromCatalog".to_string(),
        family_name: "Fam".to_string(),
        class: FontClass::Serif,
        variant_tag: "smcp".to_string(),
    };
    let file: FileFacts = read_file_facts(&sample_font());
    let l: LabelRecord = label(&facts, &file, '\u{FB01}', 12, "native");
    assert_eq!(l.postscript_name, "Fam-Bold");
    assert_eq!(l.nid16_family, "Typo");
    assert_eq!((l.weight_class, l.weight_bucket), (625, 6));
    assert_eq!((l.char_str.as_str(), l.char_code), ("\u{FB01}", 0xFB01));
    assert_eq!((l.native_height, l.aa_variant.as_str()), (12, "native"));
    assert!(l.is_ligature && l.italic);
    assert_eq!(l.font_class, "serif");
    let empty: FileFacts = read_file_facts(&[]);
    assert_eq!(label(&facts, &empty, 'a', 9, "blur").postscript_name, "FromCatalog");
}

#[test]
fn glyphs_are_overridden() {
    let f: Vec<u8> = sample_font();
    let font: FontRef = FontRef::try_from_slice(&f).unwrap();
    let mapped: u16 = font.glyph_id('B').0;
    assert_eq!(resolve_glyph(mapped, 'B', None), 21);
    assert_eq!(resolve_glyph(mapped, 'B', Some(&[])), 21);
    assert_eq!(resolve_glyph(mapped, 'B', Some(&[('A', 5), ('B', 6), ('B', 7)])), 6);
    assert_eq!(resolve_glyph(3, 'B', Some(&[('A', 5)])), 3);
}

#[test]
fn collections_with_too_many_fonts_are_no_fonts() {
    let mut c: Vec<u8> = b"ttcf".to_vec();
    put32(&mut c, 0x0001_0000);
    put32(&mut c, 0xffff_ffff);
    assert!(!has_sound_header(&c));
    assert!(read_face(&c).is_none());
    assert_eq!(read_weight_class(&c), 400);
    assert!(!read_italic(&c));
    assert_eq!(read_name_ids(&c).family, "");
    assert_eq!(read_typographic_family(&c, "F"), "F");
    assert!(has_sound_header(&sample_font()));
}

#[test]
fn the_first_font_of_a_collection_is_read() {
    let inner: Vec<u8> = font(&[
        (b"OS/2", os2(350, false)),
        (b"head", head()),
        (b"hhea", hhea()),
        (b"maxp", maxp()),
    ]);
    let mut c: Vec<u8> = b"ttcf".to_vec();
    put32(&mut c, 0x0001_0000);
    put32(&mut c, 1);
    put32(&mut c, 16);
    let mut moved: Vec<u8> = inner.clone();
    for i in 0..4 {
        let at: usize = 12 + 16 * i + 8;
        let from: u32 = u32::from_be_bytes([moved[at], moved[at + 1], moved[at + 2], moved[at + 3]]);
        moved[at..at + 4].copy_from_slice(&(from + 16).to_be_bytes());
    }
    c.extend_from_slice(&moved);
    assert_eq!(read_weight_class(&c), 350);
}

#[test]
fn tables_may_stand_in_any_order_and_the_last_of_a_name_counts() {
    let f: Vec<u8> = font(&[
        (b"maxp", maxp()),
        (b"OS/2", os2(200, true)),
        (b"hhea", hhea()),
        (b"OS/2", os2(300, false)),
        (b"head", head()),
        (b"COLR", vec![0xff; 40]),
        (b"CFF ", vec![1, 0, 4, 4, 0, 1, 4, 0, 0, 0, 1, 0xff, 0xff, 0xff, 0xff]),
    ]);
    assert_eq!(read_weight_class(&f), 300);
    assert!(!read_italic(&f));
    let headless: Vec<u8> = font(&[(b"OS/2", os2(200, true)), (b"hhea", hhea()), (b"maxp", maxp())]);
    assert!(read_face(&headless).is_none());
}

#[test]
fn rendered_characters_have_their_place() {
    let p: RenderParams = RenderParams::default();
    assert_eq!((p.height, p.render_scale, p.binarize_threshold), (24, 1, None));
    assert_eq!(cache_dir(Some("/h")), "/h/.cache/unprint/chars");
    assert_eq!(cache_dir(None), ".cache/unprint/chars");
    assert_eq!(code_point_name('A'), "U+0041");
    assert_eq!(code_point_name('\u{1F600}'), "U+1F600");
    let path: String = hash_cache_path("/c", 'A', "00ff", &p);
    assert_eq!(path, "/c/h24_s1/native_bnone/U+0041/00ff.png");
    assert_eq!(glyph_cache_path("/c", 'A', "00ff", &p), path);
    let q: RenderParams =
        RenderParams { height: 48, render_scale: 3, aa: AaVariant::Blur05, binarize_threshold: Some(128) };
    assert_eq!(
        hash_cache_path("/c", 'A', "00ff", &q),
        format!("/c/h48_s3/{}_b128/U+0041/00ff.png", AaVariant::Blur05.name())
    );
    assert_eq!(first_ink_height(&q), 144);
}

#[test]
fn canvases_are_limited() {
    assert!(canvas_accepted(2000, 2000));
    assert!(!canvas_accepted(2001, 5));
    assert!(!canvas_accepted(0, 5));
    assert!(index_canvas_accepted(500, 500));
    assert!(!index_canvas_accepted(501, 5));
    assert!(!index_canvas_accepted(5, 0));
}

#[test]
fn drawing_never_lightens() {
    let mut img: GrayImage = GrayImage::from_pixel(2, 1, 255);
    darken(&mut img, 0, 0, 100);
    darken(&mut img, 0, 0, 200);
    darken(&mut img, -1, 0, 0);
    darken(&mut img, 2, 0, 0);
    assert_eq!(img.data, vec![100u8, 255]);
}

#[test]
fn rendering_ends_black_and_white_where_it_is_asked_for() {
    let img: GrayImage = GrayImage { width: 3, height: 1, data: vec![0, 127, 128] };
    let mut p: RenderParams = RenderParams::default();
    assert_eq!(finish_render(img.clone(), &p).data, vec![0u8, 127, 128]);
    p.binarize_threshold = Some(128);
    assert_eq!(finish_render(img, &p).data, vec![0u8, 0, 255]);
}
