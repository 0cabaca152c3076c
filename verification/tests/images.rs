use unscan::color::{
    detect_background_color, detect_background_color_from_buffer, detect_text_color,
    detect_text_color_from_buffers, erase_regions, erase_regions_inplace, mean_text_color,
    region_has_content, PageImage, TextRegion,
};
use unscan::contrast::{
    binarize, contrast_normalize_char, contrast_normalize_rgba, contrast_stretch, stretch, unsharp,
};
use unscan::features::{
    can_degrade, compute_features, degrade_and_renormalize, feature_name, feature_names, group_name_for_dim,
    indexed_chars, is_indexed, is_supported, is_supported_sequence, supported_bigrams_internal,
    supported_chars, supported_sequences, AaVariant, CropFeatures, FEAT_LEN, NORM_H,
};
use unscan::glyph::{
    can_frame, collect_ink_runs, counter_features_from_reachable, detect_serif, framed, ink_bounds, ink_mask, measure_mean_stroke_width,
    measure_stroke_contrast, normalize_to_ink_bounds, CellBox,
};
use unscan::grid::{
    count_components, enclosed_cells, flood_fill_from_edges, hole_count_from_reachable,
};
use unscan::histogram::{contrast_percentiles, histogram, otsu_from_hist, otsu_threshold};
use unscan::raster::{can_resize, grayscale, resize, GrayImage, RgbaImage};
use unscan::shape::{
    compute_boundary_features, compute_corner_count, compute_h_crossings, compute_quadrant_density,
    compute_skeleton_features, compute_symmetry, compute_terminal_angles, thin, SkeletonCounts,
};

fn gray(rows: &[&str]) -> GrayImage {
    let h: u32 = rows.len() as u32;
    let w: u32 = rows[0].len() as u32;
    let mut data: Vec<u8> = Vec::new();
    for r in rows {
        for c in r.chars() {
            data.push(if c == '#' { 0 } else { 255 });
        }
    }
    GrayImage { width: w, height: h, data }
}

fn mask(rows: &[&str]) -> Vec<bool> {
    rows.iter().flat_map(|r| r.chars().map(|c| c == '#')).collect()
}

const RING: [&str; 5] = [".....", ".###.", ".#.#.", ".###.", "....."];

#[test]
fn crops_and_cells() {
    let img: GrayImage = GrayImage { width: 3, height: 2, data: vec![1, 2, 3, 4, 5, 6] };
    assert_eq!(img.get(2, 1), 6);
    let c: GrayImage = img.crop(1, 0, 2, 2);
    assert_eq!((c.width, c.height, c.data), (2, 2, vec![2u8, 3, 5, 6]));
    assert!(GrayImage::from_raw(2, 2, vec![0; 3]).is_none());
    assert!(GrayImage::from_raw(2, 2, vec![0; 4]).is_some());
}

#[test]
fn luminance_by_the_outside_library() {
    let img: RgbaImage =
        RgbaImage::from_raw(2, 1, vec![255, 0, 0, 255, 10, 200, 30, 0]).unwrap();
    let g: GrayImage = grayscale(&img);
    assert_eq!(g.data, vec![54u8, 147]);
}

#[test]
fn resampling_by_the_outside_library() {
    let img: GrayImage = gray(&["##..", "##.."]);
    let same: GrayImage = resize(&img, 4, 2);
    assert_eq!(same.data, img.data);
    let small: GrayImage = resize(&img, 2, 1);
    assert_eq!((small.width, small.height, small.data.len()), (2, 1, 2));
    assert!(small.data[0] < 40 && small.data[1] > 215);
    let none: GrayImage = resize(&GrayImage { width: 0, height: 3, data: Vec::new() }, 2, 2);
    assert_eq!(none.data, vec![0u8; 4]);
}

#[test]
fn histograms_and_percentiles() {
    let h: Vec<u32> = histogram(&[5u8, 5, 9]);
    assert_eq!((h[5], h[9], h[6], h.len()), (2, 1, 0, 256));
    let vals: Vec<u8> = (0..=255u32).map(|v| v as u8).collect();
    assert!(contrast_percentiles(&vals).is_some());
    assert_eq!(contrast_percentiles(&[7u8; 50]), Some((0, 7)));
    assert_eq!(contrast_percentiles(&[7u8; 100]), None);
    assert_eq!(contrast_percentiles(&[]), None);
}

#[test]
fn otsu_parts_two_classes() {
    let mut vals: Vec<u8> = vec![10; 30];
    vals.extend(vec![200u8; 30]);
    let t: u8 = otsu_threshold(&vals);
    assert!(t >= 10 && t < 200);
    assert_eq!(otsu_from_hist(&histogram(&vals), 60), t);
    assert_eq!(otsu_threshold(&[]), 128);
}

#[test]
fn stretching_keeps_the_order() {
    assert_eq!(stretch(10, 10, 100), 0);
    assert_eq!(stretch(60, 10, 100), 128);
    assert_eq!(stretch(110, 10, 100), 255);
    assert_eq!(stretch(200, 10, 100), 255);
    for v in 0..255u8 {
        assert_eq!(stretch(v, 0, 255), v);
        assert!(stretch(v, 20, 60) <= stretch(v + 1, 20, 60));
    }
}

#[test]
fn contrast_of_flat_images_is_kept() {
    let flat: GrayImage = GrayImage::from_pixel(10, 10, 90);
    assert_eq!(contrast_normalize_char(flat.clone()).data, flat.data);
    let rgba: RgbaImage = RgbaImage::from_raw(1, 1, vec![1, 2, 3, 4]).unwrap();
    assert_eq!(contrast_normalize_rgba(&rgba).data, vec![1u8, 2, 3, 4]);
}

#[test]
fn binarising_twice_changes_nothing() {
    let img: GrayImage = GrayImage { width: 4, height: 1, data: vec![0, 99, 100, 255] };
    let once: GrayImage = binarize(&img, 100);
    assert_eq!(once.data, vec![0u8, 0, 255, 255]);
    assert_eq!(binarize(&once, 100).data, once.data);
}

#[test]
fn sharpening_by_half_the_difference() {
    let img: GrayImage = GrayImage { width: 4, height: 1, data: vec![100, 10, 250, 50] };
    let blur: GrayImage = GrayImage { width: 4, height: 1, data: vec![80, 200, 10, 51] };
    assert_eq!(unsharp(&img, &blur).data, vec![110u8, 0, 255, 49]);
    assert_eq!(AaVariant::Native.apply(img.clone(), blur.clone()).data, img.data);
    assert_eq!(AaVariant::Blur05.apply(img.clone(), blur.clone()).data, blur.data);
    assert_eq!(AaVariant::Sharpen.apply(img, blur).data, vec![110u8, 0, 255, 49]);
}

#[test]
fn levels_move_away_from_the_middle() {
    let all: Vec<u8> = (0..=255u32).map(|v| v as u8).collect();
    let img: GrayImage = GrayImage { width: 256, height: 1, data: all.clone() };
    let out: GrayImage = contrast_stretch(&img);
    for v in all {
        let norm: f32 = (v as f32 - 128.0) / 128.0;
        let stretched: f32 = norm * (1.0 + 0.5 * norm.abs());
        let expected: u8 = ((stretched * 128.0 + 128.0).clamp(0.0, 255.0)) as u8;
        assert_eq!(out.data[v as usize], expected);
    }
    assert_eq!(out.data[128], 128);
}

#[test]
fn flood_fill_leaves_counters() {
    let m: Vec<bool> = mask(&RING);
    let reach: Vec<bool> = flood_fill_from_edges(&m, 5, 5);
    assert!(reach[0] && !reach[12] && !reach[6]);
    let inside: Vec<bool> = enclosed_cells(&m, &reach);
    assert_eq!(inside.iter().filter(|&&b| b).count(), 1);
    assert!(inside[12]);
    assert_eq!(hole_count_from_reachable(&m, &reach, 5, 5), 1);
    assert_eq!(count_components(&mask(&["#.#", "...", "##."]), 3, 3), 3);
}

#[test]
fn shapes_are_measured() {
    let m: Vec<bool> = mask(&RING);
    let s = compute_symmetry(&m, 5, 5);
    assert_eq!((s.h_match, s.v_match), (s.h_total, s.v_total));
    let q = compute_quadrant_density(&m, 5, 5);
    let ink: usize = q.top_left.ink + q.top_right.ink + q.bottom_left.ink + q.bottom_right.ink;
    assert_eq!(ink, 8);
    assert_eq!(compute_boundary_features(&m, 5, 5), 8);
    assert_eq!(compute_h_crossings(&m, 5, 5, 5), vec![0usize, 2, 4, 2, 0]);
    assert_eq!(compute_corner_count(&m, 2, 2), 0);
    let bar: Vec<bool> = mask(&[".....", ".###.", "....."]);
    let t = compute_terminal_angles(&bar, 5, 3);
    assert_eq!(t.up + t.right + t.down + t.left, 2);
}

#[test]
fn ink_is_framed() {
    let img: GrayImage = gray(&["......", "..##..", "..#...", "......"]);
    let b: CellBox = ink_bounds(&img).unwrap();
    assert_eq!((b.min_x, b.max_x, b.min_y, b.max_y), (2, 3, 1, 2));
    let f: GrayImage = framed(&img, b);
    assert_eq!((f.width, f.height), (4, 4));
    assert_eq!(ink_mask(&img, b), vec![true, true, true, false]);
    assert!(ink_bounds(&gray(&["..", ".."])).is_none());
}

#[test]
fn normalising_brings_ink_to_a_height() {
    let img: GrayImage = gray(&["......", "..##..", "..##..", "......"]);
    let n: GrayImage = normalize_to_ink_bounds(&img, 8).unwrap();
    assert_eq!((n.width, n.height), (8, 8));
    let same: GrayImage = normalize_to_ink_bounds(&img, 4).unwrap();
    assert_eq!(same.data, gray(&["....", ".##.", ".##.", "...."]).data);
    assert!(normalize_to_ink_bounds(&gray(&["...", "..."]), 8).is_none());
}

#[test]
fn only_ink_has_to_fit() {
    let mut wide: GrayImage = GrayImage::from_pixel(3_000_000, 4, 255);
    assert!(can_frame(&wide, 24));
    wide.data[3_000_000 + 7] = 0;
    wide.data[6_000_000 + 8] = 0;
    assert!(can_frame(&wide, 24));
    assert_eq!(normalize_to_ink_bounds(&wide, 24).unwrap().width, 24);
    wide.data[3_000_000 + 2_900_000] = 0;
    assert!(!can_frame(&wide, 24));
    assert!(can_resize(10, 10, 0x20_0000, 10) && !can_resize(10, 10, 0x20_0001, 10));
    assert!(can_resize(0x30_0000, 1, 0x30_0000, 1));
    assert!(can_degrade(&gray(&["###", "###"]), 3, 3));
    assert!(!can_degrade(&gray(&["###", "###"]), 0x10_0000, 3));
}

#[test]
fn strokes_are_measured() {
    let img: GrayImage = gray(&["##.#", "...#", "...#", "...."]);
    assert_eq!(collect_ink_runs(&img), vec![2u32, 3]);
    assert_eq!(measure_mean_stroke_width(&img), Some((5, 2)));
    assert_eq!(measure_stroke_contrast(&img), None);
    let bars: GrayImage = gray(&["####", "....", "####", "####"]);
    assert_eq!(collect_ink_runs(&bars), vec![4u32, 4, 4, 2, 2, 2, 2]);
    assert_eq!(measure_stroke_contrast(&bars), Some((2, 4)));
    assert_eq!(measure_mean_stroke_width(&gray(&[".."])), None);
    assert!(detect_serif(&gray(&[".."])).is_none());
}

#[test]
fn a_counter_is_a_hole() {
    let rows: Vec<String> = RING.iter().map(|r| r.to_string()).collect();
    let refs: Vec<&str> = rows.iter().map(|r| r.as_str()).collect();
    let stats = compute_features(gray(&refs), true).unwrap();
    assert_eq!(stats.counter.unwrap().area, 1);
    let open = compute_features(gray(&["###", "#..", "###"]), true).unwrap();
    assert!(open.counter.is_none());
    assert!(compute_features(gray(&["...", "..."]), true).is_none());
}

#[test]
fn degrading_keeps_the_usual_height() {
    let img: GrayImage = gray(&["......", "..##..", "..##..", "..##..", "......"]);
    let d: GrayImage = degrade_and_renormalize(&img, 4, 4).unwrap();
    assert_eq!(d.height, NORM_H);
    assert!(degrade_and_renormalize(&gray(&["..", ".."]), 1, 1).is_none());
}

#[test]
fn dimensions_have_names_and_groups() {
    let names: Vec<String> = feature_names();
    assert_eq!(names.len(), 63);
    assert_eq!(FEAT_LEN, 63);
    assert_eq!(names[15], "col15");
    assert_eq!(names[16], "aspect");
    assert_eq!(names[35], "cross3");
    assert_eq!(names[36], "row0");
    assert_eq!(names[51], "row15");
    assert_eq!(names[55], "skeleton_branch");
    assert_eq!(feature_name(62), "mean_stroke_w");
    assert_eq!(group_name_for_dim(0), "Col profile");
    assert_eq!(group_name_for_dim(16), "Scalar v1");
    assert_eq!(group_name_for_dim(22), "Scalar v2");
    assert_eq!(group_name_for_dim(36), "Row profile");
    assert_eq!(group_name_for_dim(52), "Scalar v3");
    assert_eq!(group_name_for_dim(63), "unknown");
}

#[test]
fn variants_are_known_by_name() {
    for v in AaVariant::all() {
        assert!(AaVariant::from_name(v.name()) == Some(v));
    }
    assert!(AaVariant::parse("BLUR") == Some(AaVariant::Blur05));
    assert!(AaVariant::parse("Native") == Some(AaVariant::Native));
    assert!(AaVariant::parse("other").is_none());
}

#[test]
fn characters_that_are_told_apart() {
    let c: Vec<char> = indexed_chars();
    let mut sorted: Vec<char> = c.clone();
    sorted.sort();
    sorted.dedup();
    assert_eq!(sorted.len(), c.len());
    assert!(is_indexed('a') && is_indexed('Z') && is_indexed('0'));
    assert!(!is_indexed(' '));
    assert!(c.iter().all(|&x| is_supported(x) == supported_chars().contains(&x)));
    assert!(supported_bigrams_internal().contains(&vec!['f', 'i']));
    assert!(is_supported_sequence(&vec!['f', 'i']));
    assert!(!is_supported_sequence(&vec!['q', 'z', 'x']));
    assert!(supported_sequences(1).iter().all(|s| s.len() == 1));
    assert!(supported_sequences(7).is_empty());
}

#[test]
fn vectors_keep_the_order_of_their_parts() {
    let f: CropFeatures = CropFeatures {
        profile: (0..16u32).collect(),
        aspect: 16,
        ink_density: 17,
        v_center: 18,
        h_balance: 19,
        serif_score: 20,
        stroke_contrast: 21,
        counter_area_ratio: 22,
        counter_centroid_x: 23,
        counter_centroid_y: 24,
        counter_aspect: 25,
        terminal_angles: (26..30u32).collect(),
        ink_perimeter: 30,
        compactness: 31,
        h_crossings: (32..36u32).collect(),
        row_profile: (36..52u32).collect(),
        hole_count: 52,
        h_symmetry: 53,
        v_symmetry: 54,
        skeleton_branch_pts: 55,
        skeleton_end_pts: 56,
        corner_count: 57,
        quadrant_density: (58..62u32).collect(),
        mean_stroke_width: 62,
    };
    assert_eq!(f.as_slice(), (0..63u32).collect::<Vec<u32>>());
}

fn rgba(px: &[[u8; 4]], w: u32) -> RgbaImage {
    let data: Vec<u8> = px.iter().flat_map(|p| p.to_vec()).collect();
    let h: u32 = px.len() as u32 / w;
    RgbaImage { width: w, height: h, data }
}

#[test]
fn the_colour_of_text() {
    let red: [u8; 4] = [200, 0, 0, 255];
    let white: [u8; 4] = [255, 255, 255, 255];
    let img: RgbaImage = rgba(&[white, white, red, white, white, white, white, white], 4);
    let g: GrayImage = grayscale(&img);
    let region: TextRegion = TextRegion { x: 0, y: 0, width: 4, height: 2 };
    assert_eq!(detect_text_color_from_buffers(&g, &img, &region), (200, 0, 0));
    assert_eq!(detect_text_color(&PageImage::Rgba(img), &region), (200, 0, 0));
    let away: TextRegion = TextRegion { x: 9, y: 9, width: 4, height: 2 };
    assert_eq!(detect_text_color(&PageImage::Luma(g), &away), (0, 0, 0));
    assert_eq!(mean_text_color(&vec![0, 255], &vec![1, 2, 3, 4, 5, 6, 7, 8]), (1, 2, 3));
}

#[test]
fn the_colour_of_the_background() {
    let img: RgbaImage = rgba(&[[10, 20, 30, 255]; 9], 3);
    assert_eq!(detect_background_color_from_buffer(&img), (10, 20, 30));
    assert_eq!(detect_background_color(&PageImage::Rgba(img)), (10, 20, 30));
    assert_eq!(
        detect_background_color(&PageImage::Luma(GrayImage::from_pixel(3, 3, 77))),
        (77, 77, 77)
    );
    let none: RgbaImage = RgbaImage { width: 0, height: 0, data: Vec::new() };
    assert_eq!(detect_background_color_from_buffer(&none), (255, 255, 255));
}

#[test]
fn erasing_twice_changes_nothing() {
    let mut img: RgbaImage = rgba(&[[1, 2, 3, 4]; 16], 4);
    erase_regions_inplace(&mut img, &[(2, 2, 1, 1)], (9, 9, 9), 1);
    let px = |x: usize, y: usize| img.data[(y * 4 + x) * 4..(y * 4 + x) * 4 + 4].to_vec();
    assert_eq!(px(1, 1), vec![9u8, 9, 9, 255]);
    assert_eq!(px(3, 3), vec![9u8, 9, 9, 255]);
    assert_eq!(px(0, 1), vec![1u8, 2, 3, 4]);
    let once: Vec<u8> = img.data.clone();
    let again: RgbaImage = erase_regions(&PageImage::Rgba(img), &[(2, 2, 1, 1)], (9, 9, 9), 1);
    assert_eq!(again.data, once);
}

#[test]
fn regions_with_something_in_them() {
    let mut img: GrayImage = GrayImage::from_pixel(10, 10, 255);
    assert!(!region_has_content(&img, 0, 0, 10, 10));
    for i in 0..50 {
        img.data[i] = 0;
    }
    assert!(region_has_content(&img, 0, 0, 10, 10));
    assert!(!region_has_content(&img, 20, 20, 5, 5));
}

#[test]
fn strokes_are_thinned() {
    let bar: Vec<bool> = mask(&[".........", ".#######.", ".#######.", ".#######.", "........."]);
    let line: Vec<bool> = mask(&[".........", ".........", "..####...", ".........", "........."]);
    assert_eq!(thin(&bar, 9, 5), line);
    assert_eq!(thin(&line, 9, 5), line);
    let counts: SkeletonCounts = compute_skeleton_features(&bar, 9, 5);
    assert_eq!((counts.branch_pts, counts.end_pts), (0, 2));
}

#[test]
fn a_cross_branches() {
    let cross: Vec<bool> = mask(&[
        "...........",
        "....###....",
        "....###....",
        "....###....",
        ".#########.",
        ".#########.",
        ".#########.",
        "....###....",
        "....###....",
        "....###....",
        "...........",
    ]);
    let counts: SkeletonCounts = compute_skeleton_features(&cross, 11, 11);
    assert_eq!((counts.branch_pts, counts.end_pts), (5, 4));
    let block: SkeletonCounts = compute_skeleton_features(&vec![true; 15], 5, 3);
    assert_eq!((block.branch_pts, block.end_pts), (3, 0));
    let slim: SkeletonCounts = compute_skeleton_features(&vec![true; 10], 5, 2);
    assert_eq!((slim.branch_pts, slim.end_pts), (0, 0));
}

#[test]
fn a_counter_is_measured() {
    let ring: Vec<bool> = mask(&["#####", "#...#", "#.#.#", "#####"]);
    let open: Vec<bool> = flood_fill_from_edges(&ring, 5, 4);
    let c = counter_features_from_reachable(&ring, &open, 5, 4).unwrap();
    assert_eq!((c.area, c.x_sum, c.y_sum), (5, 10, 7));
    assert_eq!((c.bounds.min_x, c.bounds.max_x, c.bounds.min_y, c.bounds.max_y), (1, 3, 1, 2));
    let bay: Vec<bool> = mask(&["###", "#..", "###"]);
    let open: Vec<bool> = flood_fill_from_edges(&bay, 3, 3);
    assert!(counter_features_from_reachable(&bay, &open, 3, 3).is_none());
}

#[test]
fn border_pixels_count_once() {
    let column: RgbaImage =
        RgbaImage::from_raw(1, 3, vec![0, 0, 0, 255, 90, 90, 90, 255, 0, 0, 0, 255]).unwrap();
    assert_eq!(detect_background_color_from_buffer(&column), (30, 30, 30));
}
