//! Measurements on glyph rasters: ink bounds, ink sums, stroke runs, serif rows, and the
//! collected statistics that feature vectors are made from.

use vstd::prelude::*;
use crate::counting::{
    tally, total, lemma_tally_bounds, lemma_tally_change, lemma_tally_implies,
    lemma_tally_none, lemma_tally_positive, lemma_tally_same,
    lemma_total_bounds, lemma_total_change, lemma_total_none, lemma_total_per_tally,
    lemma_total_plus, lemma_total_same,
};
use crate::grid::{
    component_count, component_head, connected, enclosed, enclosed_cells, flood_fill_from_edges,
    hole_count_from_reachable, is_walk, lemma_cell, lemma_flat,
};
use crate::raster::{can_resize, resizable, resize, GrayImage};
use crate::shape::{
    branch_point, compute_boundary_features, compute_corner_count, compute_h_crossings,
    compute_quadrant_density, compute_skeleton_features, compute_symmetry, compute_terminal_angles,
    crossing_at, end_point, is_quadrant, mirrored_across, mirrored_down, outline_cell, scan_row,
    skeleton, spec_corners, terminal_towards, Heading, Quadrants, SkeletonCounts, SymmetryCounts,
    TerminalCounts,
};
use crate::sorting::{below, is_kth, kth_smallest, up_to};

verus! {

/// Pixels darker than this are ink.
pub const INK_THRESHOLD: u8 = 200;

/// The ink pixels of a buffer.
pub open spec fn is_ink(data: Seq<u8>) -> spec_fn(int) -> bool {
    |i: int| data[i] < INK_THRESHOLD
}

/// A rectangle of cells, with both ends included.
#[derive(Clone, Copy, Debug, PartialEq, Eq, Structural)]
pub struct CellBox {
    pub min_x: u32,
    pub max_x: u32,
    pub min_y: u32,
    pub max_y: u32,
}

/// `b` is the smallest rectangle that holds all of the first `n` cells of a grid of width
/// `w` for which `p` holds.
pub open spec fn is_tight(p: spec_fn(int) -> bool, w: int, n: int, b: CellBox) -> bool {
    &&& forall|i: int|
        0 <= i < n && #[trigger] p(i) ==> b.min_x <= i % w <= b.max_x && b.min_y <= i / w <= b.max_y
    &&& exists|i: int| 0 <= i < n && #[trigger] p(i) && i % w == b.min_x
    &&& exists|i: int| 0 <= i < n && #[trigger] p(i) && i % w == b.max_x
    &&& exists|i: int| 0 <= i < n && #[trigger] p(i) && i / w == b.min_y
    &&& exists|i: int| 0 <= i < n && #[trigger] p(i) && i / w == b.max_y
}

/// No cell qualifies, or the rectangle is the smallest one.
pub open spec fn is_bounds(p: spec_fn(int) -> bool, w: int, n: int, b: Option<CellBox>) -> bool {
    match b {
        Some(r) => is_tight(p, w, n, r),
        None => forall|i: int| 0 <= i < n ==> !#[trigger] p(i),
    }
}

/// Widens a bounding rectangle by one more cell.
fn widen(b: Option<CellBox>, x: u32, y: u32) -> (r: CellBox)
    ensures
        b is None ==> r == (CellBox { min_x: x, max_x: x, min_y: y, max_y: y }),
        b is Some ==> {
            &&& r.min_x == if x < b->0.min_x { x } else { b->0.min_x }
            &&& r.max_x == if x > b->0.max_x { x } else { b->0.max_x }
            &&& r.min_y == if y < b->0.min_y { y } else { b->0.min_y }
            &&& r.max_y == if y > b->0.max_y { y } else { b->0.max_y }
        },
{
    match b {
        None => CellBox { min_x: x, max_x: x, min_y: y, max_y: y },
        Some(o) => CellBox {
            min_x: if x < o.min_x {
                x
            } else {
                o.min_x
            },
            max_x: if x > o.max_x {
                x
            } else {
                o.max_x
            },
            min_y: if y < o.min_y {
                y
            } else {
                o.min_y
            },
            max_y: if y > o.max_y {
                y
            } else {
                o.max_y
            },
        },
    }
}

/// One more qualifying cell: the widened rectangle is tight again.
proof fn lemma_widen(
    p: spec_fn(int) -> bool,
    w: int,
    n: int,
    b: Option<CellBox>,
    r: CellBox,
)
    requires
        0 <= n,
        is_bounds(p, w, n, b),
        p(n),
        0 <= n % w <= u32::MAX,
        0 <= n / w <= u32::MAX,
        b is None ==> r == (CellBox {
            min_x: (n % w) as u32,
            max_x: (n % w) as u32,
            min_y: (n / w) as u32,
            max_y: (n / w) as u32,
        }),
        b is Some ==> {
            let x = (n % w) as u32;
            let y = (n / w) as u32;
            &&& r.min_x == if x < b->0.min_x { x } else { b->0.min_x }
            &&& r.max_x == if x > b->0.max_x { x } else { b->0.max_x }
            &&& r.min_y == if y < b->0.min_y { y } else { b->0.min_y }
            &&& r.max_y == if y > b->0.max_y { y } else { b->0.max_y }
        },
    ensures
        is_tight(p, w, n + 1, r),
{
    assert(p(n));
    if b is Some {
        let o = b->0;
        let a = choose|i: int| 0 <= i < n && #[trigger] p(i) && i % w == o.min_x;
        let c = choose|i: int| 0 <= i < n && #[trigger] p(i) && i % w == o.max_x;
        let d = choose|i: int| 0 <= i < n && #[trigger] p(i) && i / w == o.min_y;
        let e = choose|i: int| 0 <= i < n && #[trigger] p(i) && i / w == o.max_y;
        assert(p(a) && p(c) && p(d) && p(e));
    }
}

/// The smallest rectangle round the ink of an image.
pub fn ink_bounds(img: &GrayImage) -> (b: Option<CellBox>)
    requires
        img.wf(),
    ensures
        is_bounds(is_ink(img.data@), img.width as int, img.data@.len() as int, b),
        b is Some ==> b->0.min_x <= b->0.max_x < img.width && b->0.min_y <= b->0.max_y < img.height,
{
    let mut b: Option<CellBox> = None;
    let n: usize = img.data.len();
    for i in 0..n
        invariant
            img.wf(),
            n == img.data@.len(),
            is_bounds(is_ink(img.data@), img.width as int, i as int, b),
            b is Some ==> b->0.min_x <= b->0.max_x < img.width && b->0.min_y <= b->0.max_y
                < img.height,
    {
        if img.data[i] < INK_THRESHOLD {
            proof {
                lemma_cell(img.width as int, img.height as int, i as int);
            }
            let x: u32 = (i % img.width as usize) as u32;
            let y: u32 = (i / img.width as usize) as u32;
            let ghost before = b;
            let r: CellBox = widen(b, x, y);
            b = Some(r);
            proof {
                lemma_widen(is_ink(img.data@), img.width as int, i as int, before, r);
            }
        }
    }
    b
}

/// The width and height of the canvas round an ink rectangle: one pixel of padding on each side.
pub open spec fn canvas_w(b: CellBox) -> int {
    b.max_x - b.min_x + 3
}

pub open spec fn canvas_h(b: CellBox) -> int {
    b.max_y - b.min_y + 3
}

/// The canvas for an ink rectangle: the ink region in a white frame one pixel wide.
pub open spec fn is_canvas(img: GrayImage, b: CellBox, canvas: GrayImage) -> bool {
    &&& canvas.wf()
    &&& canvas.width == canvas_w(b)
    &&& canvas.height == canvas_h(b)
    &&& forall|x: int, y: int|
        0 <= x < canvas.width && 0 <= y < canvas.height ==> #[trigger] canvas.px(x, y) == if 0 < x
            < canvas.width - 1 && 0 < y < canvas.height - 1 {
            img.px(b.min_x + x - 1, b.min_y + y - 1)
        } else {
            255
        }
}

/// Cuts out the ink rectangle of an image and frames it.
pub fn framed(img: &GrayImage, b: CellBox) -> (canvas: GrayImage)
    requires
        img.wf(),
        b.min_x <= b.max_x < img.width,
        b.min_y <= b.max_y < img.height,
        canvas_w(b) <= u32::MAX,
        canvas_h(b) <= u32::MAX,
        canvas_w(b) * canvas_h(b) <= usize::MAX,
    ensures
        is_canvas(*img, b, canvas),
{
    let total: usize = img.data.len();
    let w: u32 = b.max_x - b.min_x + 3;
    let h: u32 = b.max_y - b.min_y + 3;
    assert(0 <= w * h) by (nonlinear_arith);
    let n: usize = w as usize * h as usize;
    let mut data: Vec<u8> = Vec::new();
    for k in 0..n
        invariant
            img.wf(),
            total == img.data@.len(),
            n == w * h,
            w == canvas_w(b),
            h == canvas_h(b),
            b.min_x <= b.max_x < img.width,
            b.min_y <= b.max_y < img.height,
            data@.len() == k,
            forall|j: int|
                0 <= j < k ==> #[trigger] data@[j] == ({
                    let x = j % (w as int);
                    let y = j / (w as int);
                    if 0 < x < w - 1 && 0 < y < h - 1 {
                        img.px(b.min_x + x - 1, b.min_y + y - 1)
                    } else {
                        255
                    }
                }),
    {
        proof {
            lemma_cell(w as int, h as int, k as int);
        }
        let x: u32 = (k % w as usize) as u32;
        let y: u32 = (k / w as usize) as u32;
        let v: u8 = if 0 < x && x < w - 1 && 0 < y && y < h - 1 {
            img.get(b.min_x + (x - 1), b.min_y + (y - 1))
        } else {
            255
        };
        data.push(v);
    }
    let canvas = GrayImage { width: w, height: h, data };
    proof {
        assert forall|x: int, y: int|
            0 <= x < canvas.width && 0 <= y < canvas.height implies #[trigger] canvas.px(x, y)
            == if 0 < x < canvas.width - 1 && 0 < y < canvas.height - 1 {
            img.px(b.min_x + x - 1, b.min_y + y - 1)
        } else {
            255
        } by {
            lemma_flat(w as int, h as int, x, y);
        }
    }
    canvas
}

/// The quotient, rounded up.
pub open spec fn ceil_div(a: int, b: int) -> int {
    (a + b - 1) / b
}

/// The width to which a canvas is scaled when its height becomes `target_h`.
pub open spec fn scaled_w(b: CellBox, target_h: int) -> int {
    ceil_div(canvas_w(b) * target_h, canvas_h(b))
}

/// What an image becomes when its ink is framed and scaled to height `target_h`. An image
/// without ink, or so slim that less than two columns would be left, becomes nothing.
pub open spec fn is_framed_to(img: GrayImage, target_h: int, r: Option<GrayImage>) -> bool {
    let n = img.data@.len() as int;
    match r {
        Some(out) => exists|b: CellBox|
            {
                &&& #[trigger] is_tight(is_ink(img.data@), img.width as int, n, b)
                &&& scaled_w(b, target_h) >= 2
                &&& out.wf()
                &&& out.width == scaled_w(b, target_h)
                &&& out.height == target_h
                &&& (target_h == canvas_h(b) ==> is_canvas(img, b, out))
            },
        None => {
            ||| forall|i: int| 0 <= i < n ==> !#[trigger] is_ink(img.data@)(i)
            ||| exists|b: CellBox| #[trigger]
                is_tight(is_ink(img.data@), img.width as int, n, b) && scaled_w(b, target_h) < 2
        },
    }
}

/// The canvas for an ink rectangle can be made and scaled to height `target_h`, where that
/// leaves two columns or more.
pub open spec fn canvas_fits(b: CellBox, target_h: u32) -> bool {
    &&& canvas_w(b) <= u32::MAX
    &&& canvas_h(b) <= u32::MAX
    &&& canvas_w(b) * canvas_h(b) <= usize::MAX
    &&& scaled_w(b, target_h as int) >= 2 ==> {
        &&& scaled_w(b, target_h as int) <= u32::MAX
        &&& resizable(
            canvas_w(b) as u32,
            canvas_h(b) as u32,
            scaled_w(b, target_h as int) as u32,
            target_h,
        )
    }
}

/// The ink of an image can be framed and scaled to height `target_h`.
pub open spec fn framable(img: GrayImage, target_h: u32) -> bool {
    forall|b: CellBox| #[trigger]
        is_tight(is_ink(img.data@), img.width as int, img.data@.len() as int, b) ==> canvas_fits(
            b,
            target_h,
        )
}

/// The ink of an image has one smallest rectangle.
pub proof fn law_tight_unique(p: spec_fn(int) -> bool, w: int, n: int, a: CellBox, b: CellBox)
    requires
        is_tight(p, w, n, a),
        is_tight(p, w, n, b),
    ensures
        a == b,
{
}

/// Whether the ink of an image can be framed and scaled to height `target_h`.
pub fn can_frame(img: &GrayImage, target_h: u32) -> (r: bool)
    requires
        img.wf(),
    ensures
        r == framable(*img, target_h),
{
    let ghost p = is_ink(img.data@);
    let ghost iw = img.width as int;
    let ghost n = img.data@.len() as int;
    let b: CellBox = match ink_bounds(img) {
        None => {
            return true;
        },
        Some(b) => b,
    };
    proof {
        assert forall|c: CellBox| #[trigger] is_tight(p, iw, n, c) implies c == b by {
            law_tight_unique(p, iw, n, c, b);
        }
        assert(framable(*img, target_h) <==> canvas_fits(b, target_h));
    }
    let w: u64 = (b.max_x - b.min_x) as u64 + 3;
    let h: u64 = (b.max_y - b.min_y) as u64 + 3;
    assert(0 <= w * h <= 0x1_0000_0002 * 0x1_0000_0002) by (nonlinear_arith)
        requires
            0 <= w <= 0x1_0000_0002,
            0 <= h <= 0x1_0000_0002,
    ;
    if w > 0xffff_ffff || h > 0xffff_ffff || w as u128 * h as u128 > usize::MAX as u128 {
        return false;
    }
    assert(0 <= w * target_h <= 0xffff_ffff * 0xffff_ffff) by (nonlinear_arith)
        requires
            0 <= w <= 0xffff_ffff,
            0 <= target_h <= 0xffff_ffff,
    ;
    let q: u64 = (w * target_h as u64 + (h - 1)) / h;
    assert(q == scaled_w(b, target_h as int));
    q < 2 || (q <= 0xffff_ffff && can_resize(w as u32, h as u32, q as u32, target_h))
}

/// Frames the ink of an image and scales it to height `target_h`. An image without ink, or
/// so slim that less than two columns would be left, gives `None`.
///
/// The pixels of the scaled image come from the resampler and are left open, but for a
/// canvas that already has the target size.
pub fn normalize_to_ink_bounds(img: &GrayImage, target_h: u32) -> (r: Option<GrayImage>)
    requires
        img.wf(),
        framable(*img, target_h),
    ensures
        is_framed_to(*img, target_h as int, r),
{
    let b: CellBox = match ink_bounds(img) {
        None => {
            return None;
        },
        Some(b) => b,
    };
    assert(canvas_fits(b, target_h));
    let canvas: GrayImage = framed(img, b);
    let ghost cw = canvas.width as int;
    let ghost ch = canvas.height as int;
    assert(0 <= cw * target_h <= 0xffff_ffff * 0xffff_ffff) by (nonlinear_arith)
        requires
            0 <= cw <= 0xffff_ffff,
            0 <= target_h <= 0xffff_ffff,
    ;
    let num: u64 = canvas.width as u64 * target_h as u64;
    let w64: u64 = (num + (canvas.height as u64 - 1)) / canvas.height as u64;
    assert(w64 == scaled_w(b, target_h as int));
    if w64 < 2 {
        return None;
    }
    let new_w: u32 = w64 as u32;
    let out: GrayImage = resize(&canvas, new_w, target_h);
    proof {
        if target_h == ch {
            assert((cw * ch + (ch - 1)) / ch == cw) by {
                vstd::arithmetic::div_mod::lemma_fundamental_div_mod_converse(
                    cw * ch + (ch - 1),
                    ch,
                    cw,
                    ch - 1,
                );
            }
            assert(out.data@ == canvas.data@);
            assert forall|x: int, y: int| 0 <= x < out.width && 0 <= y < out.height implies out.px(x, y)
                == canvas.px(x, y) by {}
            assert(is_canvas(*img, b, out));
        }
    }
    Some(out)
}

// --- Stroke runs ---

/// Cell `k` along a line that starts at `start` and advances by `step` is ink.
pub open spec fn line_ink(data: Seq<u8>, start: int, step: int, k: int) -> bool {
    data[start + k * step] < INK_THRESHOLD
}

/// How many ink cells in a row end just before cell `k` of a line.
pub open spec fn run_before(data: Seq<u8>, start: int, step: int, k: int) -> int
    decreases k,
{
    if k > 0 && line_ink(data, start, step, k - 1) {
        run_before(data, start, step, k - 1) + 1
    } else {
        0
    }
}

/// The lengths of the maximal ink runs of length two or more among the first `k` cells of a
/// line that are closed off by a paper cell.
pub open spec fn closed_runs(data: Seq<u8>, start: int, step: int, k: int) -> Seq<u32>
    decreases k,
{
    if k <= 0 {
        Seq::empty()
    } else {
        let before = closed_runs(data, start, step, k - 1);
        let run = run_before(data, start, step, k - 1);
        if !line_ink(data, start, step, k - 1) && run >= 2 {
            before.push(run as u32)
        } else {
            before
        }
    }
}

/// The lengths of all maximal ink runs of length two or more on a line of `len` cells.
pub open spec fn line_runs(data: Seq<u8>, start: int, step: int, len: int) -> Seq<u32> {
    let run = run_before(data, start, step, len);
    if run >= 2 {
        closed_runs(data, start, step, len).push(run as u32)
    } else {
        closed_runs(data, start, step, len)
    }
}

/// The runs of the first `y` rows.
pub open spec fn row_runs(data: Seq<u8>, w: int, y: int) -> Seq<u32>
    decreases y,
{
    if y <= 0 {
        Seq::empty()
    } else {
        row_runs(data, w, y - 1) + line_runs(data, (y - 1) * w, 1, w)
    }
}

/// The runs of the first `x` columns.
pub open spec fn column_runs(data: Seq<u8>, w: int, h: int, x: int) -> Seq<u32>
    decreases x,
{
    if x <= 0 {
        Seq::empty()
    } else {
        column_runs(data, w, h, x - 1) + line_runs(data, x - 1, w, h)
    }
}

/// All ink runs of an image: those of its rows, then those of its columns.
pub open spec fn ink_runs(data: Seq<u8>, w: int, h: int) -> Seq<u32> {
    row_runs(data, w, h) + column_runs(data, w, h, w)
}

/// Appends the runs of one line.
fn push_runs(data: &Vec<u8>, start: usize, step: usize, len: u32, out: &mut Vec<u32>)
    requires
        len > 0 ==> start + (len - 1) * step < data@.len(),
    ensures
        final(out)@ == old(out)@ + line_runs(data@, start as int, step as int, len as int),
{
    let ghost base = out@;
    let n: usize = data.len();
    let mut run: u32 = 0;
    assert(base =~= base + closed_runs(data@, start as int, step as int, 0));
    let mut k: u32 = 0;
    while k < len
        invariant
            n == data@.len(),
            k <= len,
            len > 0 ==> start + (len - 1) * step < data@.len(),
            run == run_before(data@, start as int, step as int, k as int),
            run <= k,
            out@ == base + closed_runs(data@, start as int, step as int, k as int),
        decreases len - k,
    {
        assert(0 <= k * step <= (len - 1) * step) by (nonlinear_arith)
            requires
                0 <= k <= len - 1,
                0 <= step,
        ;
        let at: usize = start + k as usize * step;
        if data[at] < INK_THRESHOLD {
            run = run + 1;
        } else {
            if run >= 2 {
                out.push(run);
                assert(out@ =~= base + closed_runs(
                    data@,
                    start as int,
                    step as int,
                    k + 1,
                ));
            }
            run = 0;
        }
        k = k + 1;
    }
    if run >= 2 {
        out.push(run);
    }
    assert(out@ =~= base + line_runs(data@, start as int, step as int, len as int));
}

/// Collects the ink runs of length two or more, along all rows and then all columns.
pub fn collect_ink_runs(img: &GrayImage) -> (runs: Vec<u32>)
    requires
        img.wf(),
    ensures
        runs@ == ink_runs(img.data@, img.width as int, img.height as int),
{
    let mut out: Vec<u32> = Vec::new();
    let n: usize = img.data.len();
    let w: u32 = img.width;
    let h: u32 = img.height;
    for y in 0..h
        invariant
            img.wf(),
            w == img.width,
            h == img.height,
            n == img.data@.len(),
            out@ == row_runs(img.data@, w as int, y as int),
    {
        proof {
            if w > 0 {
                lemma_flat(w as int, h as int, w - 1, y as int);
            } else {
                assert(y * 0 == 0) by (nonlinear_arith);
            }
            assert((w - 1) * 1 == w - 1);
        }
        push_runs(&img.data, y as usize * w as usize, 1, w, &mut out);
    }
    let ghost rows = out@;
    assert(out@ =~= rows + column_runs(img.data@, w as int, h as int, 0));
    for x in 0..w
        invariant
            img.wf(),
            w == img.width,
            h == img.height,
            n == img.data@.len(),
            rows == row_runs(img.data@, w as int, h as int),
            out@ == rows + column_runs(img.data@, w as int, h as int, x as int),
    {
        proof {
            if h > 0 {
                lemma_flat(w as int, h as int, x as int, h - 1);
            }
        }
        let ghost before = out@;
        push_runs(&img.data, x as usize, w as usize, h, &mut out);
        assert(out@ =~= rows + column_runs(img.data@, w as int, h as int, x + 1));
    }
    out
}

/// `nine tenths` of a length, rounded down.
fn nine_tenths(n: usize) -> (r: usize)
    ensures
        r == n * 9 / 10,
{
    (n / 10) * 9 + (n % 10) * 9 / 10
}

/// The thin and the thick stroke width of an image: the run lengths at the tenth and the
/// ninetieth percentile. Images with a side below four pixels, and those with fewer than
/// four runs, have none.
pub open spec fn is_stroke_range(img: GrayImage, r: Option<(u32, u32)>) -> bool {
    let runs = ink_runs(img.data@, img.width as int, img.height as int);
    let n = runs.len() as int;
    match r {
        None => img.width < 4 || img.height < 4 || n < 4,
        Some((thin, thick)) => {
            &&& img.width >= 4 && img.height >= 4 && n >= 4
            &&& is_kth(runs, n / 10, thin as int)
            &&& is_kth(runs, n * 9 / 10, thick as int)
        },
    }
}

/// Measures the thin and the thick stroke width.
pub fn measure_stroke_contrast(img: &GrayImage) -> (r: Option<(u32, u32)>)
    requires
        img.wf(),
    ensures
        is_stroke_range(*img, r),
{
    if img.width < 4 || img.height < 4 {
        return None;
    }
    let runs: Vec<u32> = collect_ink_runs(img);
    let n: usize = runs.len();
    if n < 4 {
        return None;
    }
    let thin: u32 = kth_smallest(&runs, n / 10);
    let thick: u32 = kth_smallest(&runs, nine_tenths(n));
    Some((thin, thick))
}

/// Element `i` as an integer.
pub open spec fn value_at(s: Seq<u32>) -> spec_fn(int) -> int {
    |i: int| s[i] as int
}

/// The sum and the number of the ink runs; `None` where a side is below four pixels or
/// there is no run.
pub open spec fn is_run_total(img: GrayImage, r: Option<(u128, usize)>) -> bool {
    let runs = ink_runs(img.data@, img.width as int, img.height as int);
    match r {
        None => img.width < 4 || img.height < 4 || runs.len() == 0,
        Some((sum, count)) => {
            &&& img.width >= 4 && img.height >= 4 && runs.len() > 0
            &&& count == runs.len()
            &&& sum == total(value_at(runs), runs.len() as int)
        },
    }
}

/// Sums up the ink runs, for their mean length.
pub fn measure_mean_stroke_width(img: &GrayImage) -> (r: Option<(u128, usize)>)
    requires
        img.wf(),
    ensures
        is_run_total(*img, r),
{
    if img.width < 4 || img.height < 4 {
        return None;
    }
    let runs: Vec<u32> = collect_ink_runs(img);
    let n: usize = runs.len();
    if n == 0 {
        return None;
    }
    let mut sum: u128 = 0;
    for i in 0..n
        invariant
            n == runs@.len(),
            sum == total(value_at(runs@), i as int),
            sum <= i * 0xffff_ffff,
    {
        sum = sum + runs[i] as u128;
    }
    Some((sum, n))
}

// --- Serif rows ---

/// Cell `x` of row `y` is ink.
pub open spec fn row_ink(data: Seq<u8>, w: int, y: int) -> spec_fn(int) -> bool {
    |x: int| data[y * w + x] < INK_THRESHOLD
}

/// The number of ink cells in row `y`.
pub open spec fn row_count(data: Seq<u8>, w: int, y: int) -> int {
    tally(row_ink(data, w, y), w)
}

/// The number of ink cells in row `from + k`.
pub open spec fn row_term(data: Seq<u8>, w: int, from: int) -> spec_fn(int) -> int {
    |k: int| row_count(data, w, from + k)
}

/// The number of ink cells in the rows `from` to `to`, without `to`.
pub open spec fn rows_count(data: Seq<u8>, w: int, from: int, to: int) -> int {
    total(row_term(data, w, from), to - from)
}

/// Ink counts of the rows at the top and the bottom of a glyph and of its middle third.
#[derive(Clone, Copy, Debug, PartialEq, Eq, Structural)]
pub struct SerifRows {
    pub terminal_rows: u32,
    pub top: u64,
    pub bottom: u64,
    pub mid_rows: u32,
    pub mid: u64,
}

/// The number of rows taken at each end of a glyph of height `ink_h`.
pub open spec fn end_rows(ink_h: int) -> int {
    if ink_h / 8 < 2 {
        2
    } else if ink_h / 8 > 4 {
        4
    } else {
        ink_h / 8
    }
}

/// The serif rows of an image, if it is at least three wide and its ink at least eight high.
pub open spec fn is_serif_rows(img: GrayImage, r: Option<SerifRows>) -> bool {
    exists|b: Option<CellBox>| #[trigger]
        is_bounds(is_ink(img.data@), img.width as int, img.data@.len() as int, b) && {
            if img.width < 3 || img.height < 8 || b is None || b->0.max_y - b->0.min_y + 1 < 8 {
                r is None
            } else {
                let lo = b->0.min_y as int;
                let hi = b->0.max_y as int;
                let ink_h = hi - lo + 1;
                let from = lo + ink_h / 3;
                let to = lo + 2 * ink_h / 3;
                let w = img.width as int;
                &&& r is Some
                &&& r->0.terminal_rows == end_rows(ink_h)
                &&& r->0.top == rows_count(img.data@, w, lo, lo + end_rows(ink_h))
                &&& r->0.bottom == rows_count(img.data@, w, hi + 1 - end_rows(ink_h), hi + 1)
                &&& r->0.mid_rows == to - from
                &&& r->0.mid == rows_count(img.data@, w, from, to)
            }
        }
}

/// Counts the ink cells of the rows `from` to `to`.
fn count_rows(img: &GrayImage, from: u32, to: u32) -> (r: u64)
    requires
        img.wf(),
        from <= to <= img.height,
    ensures
        r == rows_count(img.data@, img.width as int, from as int, to as int),
{
    let n: usize = img.data.len();
    let w: u32 = img.width;
    let mut sum: u64 = 0;
    let mut y: u32 = from;
    while y < to
        invariant
            img.wf(),
            n == img.data@.len(),
            w == img.width,
            from <= y <= to <= img.height,
            sum == rows_count(img.data@, w as int, from as int, y as int),
            sum <= (y - from) * w,
        decreases to - y,
    {
        let mut count: u32 = 0;
        proof {
            if w > 0 {
                lemma_flat(w as int, img.height as int, 0, y as int);
            }
        }
        for x in 0..w
            invariant
                img.wf(),
                n == img.data@.len(),
                w == img.width,
                y < img.height,
                count == tally(row_ink(img.data@, w as int, y as int), x as int),
                count <= x,
        {
            if img.get(x, y) < INK_THRESHOLD {
                count = count + 1;
            }
        }
        proof {
            assert((y + 1 - from) * w == (y - from) * w + w) by (nonlinear_arith);
            assert((y + 1 - from) * w <= 0xffff_ffff * 0xffff_ffff) by (nonlinear_arith)
                requires
                    0 <= y + 1 - from <= 0xffff_ffff,
                    0 <= w <= 0xffff_ffff,
            ;
            let f = row_term(img.data@, w as int, from as int);
            assert(f((y - from) as int) == count);
            assert(total(f, y + 1 - from) == total(f, y - from) + f(y - from));
        }
        sum = sum + count as u64;
        y = y + 1;
    }
    sum
}

/// Counts the ink of the serif rows.
pub fn detect_serif(img: &GrayImage) -> (r: Option<SerifRows>)
    requires
        img.wf(),
    ensures
        is_serif_rows(*img, r),
{
    let b: Option<CellBox> = ink_bounds(img);
    if img.width < 3 || img.height < 8 {
        return None;
    }
    let bx: CellBox = match b {
        None => {
            return None;
        },
        Some(bx) => bx,
    };
    let ink_h: u32 = bx.max_y - bx.min_y + 1;
    if ink_h < 8 {
        return None;
    }
    let terminal_rows: u32 = if ink_h / 8 < 2 {
        2
    } else if ink_h / 8 > 4 {
        4
    } else {
        ink_h / 8
    };
    let top: u64 = count_rows(img, bx.min_y, bx.min_y + terminal_rows);
    let bottom: u64 = count_rows(img, bx.max_y + 1 - terminal_rows, bx.max_y + 1);
    let from: u32 = bx.min_y + ink_h / 3;
    let to: u32 = bx.min_y + (2 * ink_h as u64 / 3) as u32;
    let mid: u64 = count_rows(img, from, to);
    Some(SerifRows { terminal_rows, top, bottom, mid_rows: to - from, mid })
}

// --- Ink sums ---

/// The darkness of pixel `i`: zero for paper.
pub open spec fn darkness(data: Seq<u8>) -> spec_fn(int) -> int {
    |i: int|
        if data[i] < INK_THRESHOLD {
            255 - data[i]
        } else {
            0
        }
}

/// The darkness of pixel `i` times its row.
pub open spec fn darkness_by_row(data: Seq<u8>, w: int) -> spec_fn(int) -> int {
    |i: int| (i / w) * darkness(data)(i)
}

/// The darkness of pixel `i`, if it lies in column `x`.
pub open spec fn darkness_in_column(data: Seq<u8>, w: int, x: int) -> spec_fn(int) -> int {
    |i: int|
        if i % w == x {
            darkness(data)(i)
        } else {
            0
        }
}

/// The darkness of pixel `i`, if it lies in row `y`.
pub open spec fn darkness_in_row(data: Seq<u8>, w: int, y: int) -> spec_fn(int) -> int {
    |i: int|
        if i / w == y {
            darkness(data)(i)
        } else {
            0
        }
}

/// The darkness of pixel `i`, if it lies in column `x` or further left.
pub open spec fn darkness_left_of(data: Seq<u8>, w: int, x: int) -> spec_fn(int) -> int {
    |i: int|
        if i % w <= x {
            darkness(data)(i)
        } else {
            0
        }
}

/// Sums of darkness over a raster, and over the rows and columns of its ink rectangle.
pub struct InkSums {
    pub pixels: usize,
    pub total: u128,
    pub by_row: u128,
    pub left: u128,
    pub columns: Vec<u128>,
    pub rows: Vec<u128>,
}

/// `s` holds the ink sums of a buffer with ink rectangle `b`, over its first `n` pixels.
pub open spec fn are_ink_sums(data: Seq<u8>, w: int, b: CellBox, n: int, s: InkSums) -> bool {
    &&& s.pixels == tally(is_ink(data), n)
    &&& s.total == total(darkness(data), n)
    &&& s.by_row == total(darkness_by_row(data, w), n)
    &&& s.left == total(darkness_left_of(data, w, b.min_x + (b.max_x - b.min_x) / 2), n)
    &&& s.columns@.len() == b.max_x - b.min_x + 1
    &&& s.rows@.len() == b.max_y - b.min_y + 1
    &&& forall|c: int|
        0 <= c < s.columns@.len() ==> #[trigger] s.columns@[c] == total(
            darkness_in_column(data, w, b.min_x + c),
            n,
        )
    &&& forall|r: int|
        0 <= r < s.rows@.len() ==> #[trigger] s.rows@[r] == total(
            darkness_in_row(data, w, b.min_y + r),
            n,
        )
}

/// Sums up the darkness of a raster with ink rectangle `b`.
fn sum_ink(img: &GrayImage, b: CellBox) -> (s: InkSums)
    requires
        img.wf(),
        b.min_x <= b.max_x < img.width,
        b.min_y <= b.max_y < img.height,
        is_tight(is_ink(img.data@), img.width as int, img.data@.len() as int, b),
    ensures
        are_ink_sums(img.data@, img.width as int, b, img.data@.len() as int, s),
{
    let n: usize = img.data.len();
    let iw: usize = (b.max_x - b.min_x) as usize + 1;
    let ih: usize = (b.max_y - b.min_y) as usize + 1;
    let mid: u32 = b.min_x + (b.max_x - b.min_x) / 2;
    let mut s = InkSums {
        pixels: 0,
        total: 0,
        by_row: 0,
        left: 0,
        columns: vec![0u128; iw],
        rows: vec![0u128; ih],
    };
    let ghost w = img.width as int;
    let ghost data = img.data@;
    for i in 0..n
        invariant
            img.wf(),
            n == img.data@.len(),
            w == img.width,
            data == img.data@,
            mid == b.min_x + (b.max_x - b.min_x) / 2,
            b.min_x <= b.max_x < img.width,
            b.min_y <= b.max_y < img.height,
            is_tight(is_ink(img.data@), img.width as int, img.data@.len() as int, b),
            are_ink_sums(data, w, b, i as int, s),
    {
        proof {
            lemma_cell(w, img.height as int, i as int);
            lemma_tally_bounds(is_ink(data), i as int);
            lemma_total_bounds(darkness(data), i as int, 255);
            lemma_total_bounds(
                darkness_left_of(data, w, b.min_x + (b.max_x - b.min_x) / 2),
                i as int,
                255,
            );
            assert forall|k: int| 0 <= k < i implies 0 <= #[trigger] darkness_by_row(data, w)(k)
                <= 0xfe_ffff_ff01 by {
                lemma_cell(w, img.height as int, k);
                assert(0 <= (k / w) * darkness(data)(k) <= 0xfe_ffff_ff01) by (nonlinear_arith)
                    requires
                        0 <= k / w <= 0xffff_ffff,
                        0 <= darkness(data)(k) <= 255,
                ;
            }
            lemma_total_bounds(darkness_by_row(data, w), i as int, 0xfe_ffff_ff01int);
            assert(i * (0xfe_ffff_ff01) <= 0xffff_ffff_ffff_ffff * (0xfe_ffff_ff01))
                by (nonlinear_arith)
                requires
                    0 <= i <= 0xffff_ffff_ffff_ffff,
            ;
            assert(i * 255 <= 0xffff_ffff_ffff_ffff * 255) by (nonlinear_arith)
                requires
                    0 <= i <= 0xffff_ffff_ffff_ffff,
            ;
        }
        let px: u8 = img.data[i];
        if px < INK_THRESHOLD {
            assert(is_ink(data)(i as int));
            let x: u32 = (i % img.width as usize) as u32;
            let y: u32 = (i / img.width as usize) as u32;
            let dark: u128 = (255 - px) as u128;
            assert(0 <= y * dark <= 0xfe_ffff_ff01) by (nonlinear_arith)
                requires
                    0 <= y <= 0xffff_ffff,
                    0 <= dark <= 255,
            ;
            s.pixels = s.pixels + 1;
            s.total = s.total + dark;
            s.by_row = s.by_row + y as u128 * dark;
            if x <= mid {
                s.left = s.left + dark;
            }
            let lx: usize = (x - b.min_x) as usize;
            let ly: usize = (y - b.min_y) as usize;
            proof {
                lemma_total_bounds(
                    darkness_in_column(data, w, b.min_x + lx),
                    i as int,
                    255,
                );
                lemma_total_bounds(darkness_in_row(data, w, b.min_y + ly), i as int, 255);
            }
            let c: u128 = s.columns[lx];
            s.columns.set(lx, c + dark);
            let r: u128 = s.rows[ly];
            s.rows.set(ly, r + dark);
        } else {
            assert((i as int / w) * 0 == 0) by (nonlinear_arith);
        }
    }
    s
}

/// How much a pixel weighs: paper weighs nothing, ink what it lacks to white. Where two rasters
/// differ in one pixel, the count of ink pixels, the sum of darkness, the sum by row, the sum
/// of the left half and the sums of the pixel's column and row differ by that pixel's weight,
/// and the sums of the other columns and rows stay.
pub proof fn law_ink_weight(
    a: Seq<u8>,
    b: Seq<u8>,
    w: int,
    r: CellBox,
    s: InkSums,
    t: InkSums,
    i: int,
)
    requires
        0 < w,
        0 <= i < a.len(),
        b.len() == a.len(),
        r.min_x <= r.max_x,
        r.min_y <= r.max_y,
        forall|k: int| 0 <= k < a.len() && k != i ==> #[trigger] a[k] == b[k],
        are_ink_sums(a, w, r, a.len() as int, s),
        are_ink_sums(b, w, r, b.len() as int, t),
    ensures
        ({
            let from = if a[i] < 200 {
                255 - a[i]
            } else {
                0
            };
            let to = if b[i] < 200 {
                255 - b[i]
            } else {
                0
            };
            &&& t.total - s.total == to - from
            &&& t.pixels - s.pixels == (if b[i] < 200 {
                1int
            } else {
                0int
            }) - (if a[i] < 200 {
                1int
            } else {
                0int
            })
            &&& t.by_row - s.by_row == (i / w) * to - (i / w) * from
            &&& i % w <= r.min_x + (r.max_x - r.min_x) / 2 ==> t.left - s.left == to - from
            &&& i % w > r.min_x + (r.max_x - r.min_x) / 2 ==> t.left == s.left
            &&& t.columns@.len() == s.columns@.len() == r.max_x - r.min_x + 1
            &&& t.rows@.len() == s.rows@.len() == r.max_y - r.min_y + 1
            &&& forall|c: int|
                0 <= c < s.columns@.len() ==> #[trigger] t.columns@[c] - s.columns@[c] == (if r.min_x
                    + c == i % w {
                    to - from
                } else {
                    0
                })
            &&& forall|c: int|
                0 <= c < s.rows@.len() ==> #[trigger] t.rows@[c] - s.rows@[c] == (if r.min_y + c == i
                    / w {
                    to - from
                } else {
                    0
                })
        }),
{
    let n = a.len() as int;
    let mid = r.min_x + (r.max_x - r.min_x) / 2;
    assert forall|k: int| 0 <= k < n && k != i implies #[trigger] darkness(a)(k) == darkness(b)(
        k,
    ) by {
        assert(a[k] == b[k]);
    }
    lemma_total_change(darkness(a), darkness(b), i, n);
    assert forall|k: int| 0 <= k < n && k != i implies #[trigger] is_ink(a)(k) == is_ink(b)(k) by {
        assert(a[k] == b[k]);
    }
    lemma_tally_change(is_ink(a), is_ink(b), i, n);
    assert forall|k: int| 0 <= k < n && k != i implies #[trigger] darkness_by_row(a, w)(k)
        == darkness_by_row(b, w)(k) by {
        assert(darkness(a)(k) == darkness(b)(k));
    }
    lemma_total_change(darkness_by_row(a, w), darkness_by_row(b, w), i, n);
    assert forall|k: int| 0 <= k < n && k != i implies #[trigger] darkness_left_of(a, w, mid)(k)
        == darkness_left_of(b, w, mid)(k) by {
        assert(darkness(a)(k) == darkness(b)(k));
    }
    lemma_total_change(darkness_left_of(a, w, mid), darkness_left_of(b, w, mid), i, n);
    assert forall|c: int| 0 <= c < s.columns@.len() implies #[trigger] t.columns@[c] - s.columns@[c]
        == (if r.min_x + c == i % w {
        darkness(b)(i) - darkness(a)(i)
    } else {
        0
    }) by {
        let f = darkness_in_column(a, w, r.min_x + c);
        let g = darkness_in_column(b, w, r.min_x + c);
        assert forall|k: int| 0 <= k < n && k != i implies #[trigger] f(k) == g(k) by {
            assert(darkness(a)(k) == darkness(b)(k));
        }
        lemma_total_change(f, g, i, n);
    }
    assert forall|c: int| 0 <= c < s.rows@.len() implies #[trigger] t.rows@[c] - s.rows@[c] == (
    if r.min_y + c == i / w {
        darkness(b)(i) - darkness(a)(i)
    } else {
        0
    }) by {
        let f = darkness_in_row(a, w, r.min_y + c);
        let g = darkness_in_row(b, w, r.min_y + c);
        assert forall|k: int| 0 <= k < n && k != i implies #[trigger] f(k) == g(k) by {
            assert(darkness(a)(k) == darkness(b)(k));
        }
        lemma_total_change(f, g, i, n);
    }
}

/// Every ink pixel weighs more than 55 and at most 255. So a raster with ink has a positive
/// sum of darkness, one without has none, and where all ink is black the sum is 255 for each
/// ink pixel.
pub proof fn law_ink_total(data: Seq<u8>, w: int, r: CellBox, s: InkSums)
    requires
        are_ink_sums(data, w, r, data.len() as int, s),
    ensures
        56 * s.pixels <= s.total <= 255 * s.pixels,
        s.left <= s.total,
        (exists|i: int| 0 <= i < data.len() && #[trigger] data[i] < 200) ==> s.pixels > 0 && s.total
            > 0,
        (forall|i: int| 0 <= i < data.len() ==> #[trigger] data[i] >= 200) ==> s.pixels == 0
            && s.total == 0 && s.by_row == 0 && s.left == 0,
        (forall|i: int| 0 <= i < data.len() ==> #[trigger] data[i] == 0 || data[i] >= 200)
            ==> s.total == 255 * s.pixels,
{
    let n = data.len() as int;
    lemma_total_per_tally(darkness(data), is_ink(data), n, 56, 255);
    let mid = r.min_x + (r.max_x - r.min_x) / 2;
    let right = |i: int| darkness(data)(i) - darkness_left_of(data, w, mid)(i);
    lemma_total_plus(darkness_left_of(data, w, mid), right, darkness(data), n);
    lemma_total_bounds(right, n, 255);
    if exists|i: int| 0 <= i < data.len() && #[trigger] data[i] < 200 {
        let i = choose|i: int| 0 <= i < data.len() && #[trigger] data[i] < 200;
        assert(is_ink(data)(i));
        lemma_tally_positive(is_ink(data), i, n);
    }
    if forall|i: int| 0 <= i < data.len() ==> #[trigger] data[i] >= 200 {
        lemma_tally_none(is_ink(data), n);
        assert forall|i: int| 0 <= i < n implies #[trigger] darkness_by_row(data, w)(i) == 0 by {
            assert(data[i] >= 200);
            assert((i / w) * 0 == 0) by (nonlinear_arith);
        }
        lemma_total_none(darkness_by_row(data, w), n);
        lemma_total_none(darkness_left_of(data, w, mid), n);
    }
    if forall|i: int| 0 <= i < data.len() ==> #[trigger] data[i] == 0 || data[i] >= 200 {
        assert forall|i: int| 0 <= i < n && is_ink(data)(i) implies 255 <= #[trigger] darkness(data)(
            i,
        ) <= 255 by {
            assert(data[i] == 0 || data[i] >= 200);
        }
        lemma_total_per_tally(darkness(data), is_ink(data), n, 255, 255);
    }
}

/// All ink stands in the columns of the ink rectangle, and in its rows: either sums add up to
/// the sum of darkness.
pub proof fn law_ink_sums_agree(img: GrayImage, r: CellBox, s: InkSums)
    requires
        img.wf(),
        r.min_x <= r.max_x < img.width,
        r.min_y <= r.max_y < img.height,
        is_tight(is_ink(img.data@), img.width as int, img.data@.len() as int, r),
        are_ink_sums(img.data@, img.width as int, r, img.data@.len() as int, s),
    ensures
        total(|c: int| s.columns@[c] as int, s.columns@.len() as int) == s.total,
        total(|c: int| s.rows@[c] as int, s.rows@.len() as int) == s.total,
{
    let data = img.data@;
    let w = img.width as int;
    let n = data.len() as int;
    let iw = s.columns@.len() as int;
    let ih = s.rows@.len() as int;
    let cols = |c: int| s.columns@[c] as int;
    let rows = |c: int| s.rows@[c] as int;
    let f = |c: int| total(darkness_in_column(data, w, r.min_x + c), n);
    let g = |c: int| total(darkness_in_row(data, w, r.min_y + c), n);
    lemma_total_same(cols, f, iw);
    lemma_total_same(rows, g, ih);
    lemma_columns_agree(img, r, n, iw);
    lemma_rows_agree(img, r, n, ih);
}

proof fn lemma_columns_agree(img: GrayImage, r: CellBox, n: int, iw: int)
    requires
        img.wf(),
        r.min_x <= r.max_x < img.width,
        is_tight(is_ink(img.data@), img.width as int, img.data@.len() as int, r),
        iw == r.max_x - r.min_x + 1,
        0 <= n <= img.data@.len(),
    ensures
        total(
            |c: int| total(darkness_in_column(img.data@, img.width as int, r.min_x + c), n),
            iw,
        ) == total(darkness(img.data@), n),
    decreases n,
{
    let data = img.data@;
    let w = img.width as int;
    let f = |c: int| total(darkness_in_column(data, w, r.min_x + c), n);
    if n == 0 {
        lemma_total_none(f, iw);
    } else {
        lemma_columns_agree(img, r, n - 1, iw);
        let g = |c: int| total(darkness_in_column(data, w, r.min_x + c), n - 1);
        let x = (n - 1) % w - r.min_x;
        if is_ink(data)(n - 1) {
            assert(g(x) + darkness(data)(n - 1) == f(x));
            lemma_total_change(g, f, x, iw);
        } else {
            lemma_total_same(f, g, iw);
        }
    }
}

proof fn lemma_rows_agree(img: GrayImage, r: CellBox, n: int, ih: int)
    requires
        img.wf(),
        r.min_y <= r.max_y < img.height,
        is_tight(is_ink(img.data@), img.width as int, img.data@.len() as int, r),
        ih == r.max_y - r.min_y + 1,
        0 <= n <= img.data@.len(),
    ensures
        total(|c: int| total(darkness_in_row(img.data@, img.width as int, r.min_y + c), n), ih)
            == total(darkness(img.data@), n),
    decreases n,
{
    let data = img.data@;
    let w = img.width as int;
    let f = |c: int| total(darkness_in_row(data, w, r.min_y + c), n);
    if n == 0 {
        lemma_total_none(f, ih);
    } else {
        lemma_rows_agree(img, r, n - 1, ih);
        let g = |c: int| total(darkness_in_row(data, w, r.min_y + c), n - 1);
        let y = (n - 1) / w - r.min_y;
        if is_ink(data)(n - 1) {
            assert(g(y) + darkness(data)(n - 1) == f(y));
            lemma_total_change(g, f, y, ih);
        } else {
            lemma_total_same(f, g, ih);
        }
    }
}

/// The mask of an ink rectangle: cell `k` tells whether the pixel there is ink.
pub open spec fn ink_mask_of(img: GrayImage, b: CellBox) -> Seq<bool> {
    let iw = b.max_x - b.min_x + 1;
    let ih = b.max_y - b.min_y + 1;
    Seq::new(
        (iw * ih) as nat,
        |k: int| img.px(b.min_x + k % iw, b.min_y + k / iw) < INK_THRESHOLD,
    )
}

/// Extracts the mask of an ink rectangle.
pub fn ink_mask(img: &GrayImage, b: CellBox) -> (mask: Vec<bool>)
    requires
        img.wf(),
        b.min_x <= b.max_x < img.width,
        b.min_y <= b.max_y < img.height,
    ensures
        mask@ == ink_mask_of(*img, b),
        mask@.len() == (b.max_x - b.min_x + 1) * (b.max_y - b.min_y + 1),
{
    let total: usize = img.data.len();
    let iw: usize = (b.max_x - b.min_x) as usize + 1;
    let ih: usize = (b.max_y - b.min_y) as usize + 1;
    assert(0 <= iw * ih <= img.width * img.height) by (nonlinear_arith)
        requires
            0 <= iw <= img.width,
            0 <= ih <= img.height,
    ;
    let n: usize = iw * ih;
    let mut mask: Vec<bool> = Vec::new();
    for k in 0..n
        invariant
            img.wf(),
            n == iw * ih,
            iw == b.max_x - b.min_x + 1,
            ih == b.max_y - b.min_y + 1,
            b.min_x <= b.max_x < img.width,
            b.min_y <= b.max_y < img.height,
            mask@.len() == k,
            forall|j: int|
                0 <= j < k ==> #[trigger] mask@[j] == (img.px(
                    b.min_x + j % (iw as int),
                    b.min_y + j / (iw as int),
                ) < INK_THRESHOLD),
    {
        proof {
            lemma_cell(iw as int, ih as int, k as int);
        }
        let x: u32 = b.min_x + (k % iw) as u32;
        let y: u32 = b.min_y + (k / iw) as u32;
        mask.push(img.get(x, y) < INK_THRESHOLD);
    }
    assert(mask@ =~= ink_mask_of(*img, b));
    mask
}

// --- Counters ---

/// Cell `i` is set.
pub open spec fn cell_set(mask: Seq<bool>) -> spec_fn(int) -> bool {
    |i: int| mask[i]
}

/// The column of cell `i`, if it is set.
pub open spec fn column_if_set(mask: Seq<bool>, w: int) -> spec_fn(int) -> int {
    |i: int|
        if mask[i] {
            i % w
        } else {
            0
        }
}

/// The row of cell `i`, if it is set.
pub open spec fn row_if_set(mask: Seq<bool>, w: int) -> spec_fn(int) -> int {
    |i: int|
        if mask[i] {
            i / w
        } else {
            0
        }
}

/// Size, centre of mass (as sums) and extent of the enclosed part of a glyph.
#[derive(Clone, Copy, Debug, PartialEq, Eq, Structural)]
pub struct CounterStats {
    pub area: usize,
    pub x_sum: u128,
    pub y_sum: u128,
    pub bounds: CellBox,
}

/// `r` describes the set cells of `inside`, of which there may be none.
pub open spec fn is_counter(inside: Seq<bool>, w: int, r: Option<CounterStats>) -> bool {
    let n = inside.len() as int;
    match r {
        None => forall|i: int| 0 <= i < n ==> !#[trigger] inside[i],
        Some(c) => {
            &&& c.area == tally(cell_set(inside), n)
            &&& c.area > 0
            &&& c.x_sum == total(column_if_set(inside, w), n)
            &&& c.y_sum == total(row_if_set(inside, w), n)
            &&& is_tight(cell_set(inside), w, n, c.bounds)
        },
    }
}

/// Measures the enclosed part of a glyph: what is neither ink nor marked in `reachable`.
pub fn counter_features_from_reachable(
    ink: &[bool],
    reachable: &[bool],
    w: usize,
    h: usize,
) -> (r: Option<CounterStats>)
    requires
        ink@.len() == w * h,
        reachable@.len() == w * h,
        w <= u32::MAX,
        h <= u32::MAX,
    ensures
        is_counter(
            Seq::new(ink@.len(), |i: int| !ink@[i] && !reachable@[i]),
            w as int,
            r,
        ),
{
    let inside: Vec<bool> = enclosed_cells(ink, reachable);
    let n: usize = inside.len();
    let mut area: usize = 0;
    let mut x_sum: u128 = 0;
    let mut y_sum: u128 = 0;
    let mut b: Option<CellBox> = None;
    for i in 0..n
        invariant
            n == inside@.len(),
            n == w * h,
            w <= u32::MAX,
            h <= u32::MAX,
            area == tally(cell_set(inside@), i as int),
            area <= i,
            x_sum == total(column_if_set(inside@, w as int), i as int),
            y_sum == total(row_if_set(inside@, w as int), i as int),
            x_sum <= i * 0xffff_ffff,
            y_sum <= i * 0xffff_ffff,
            is_bounds(cell_set(inside@), w as int, i as int, b),
            b is Some <==> area > 0,
    {
        proof {
            lemma_cell(w as int, h as int, i as int);
        }
        if inside[i] {
            let x: u32 = (i % w) as u32;
            let y: u32 = (i / w) as u32;
            area = area + 1;
            x_sum = x_sum + x as u128;
            y_sum = y_sum + y as u128;
            let ghost before = b;
            let r: CellBox = widen(b, x, y);
            b = Some(r);
            proof {
                lemma_widen(cell_set(inside@), w as int, i as int, before, r);
            }
        }
    }
    match b {
        None => {
            proof {
                assert forall|i: int| 0 <= i < n implies !#[trigger] inside@[i] by {
                    assert(!cell_set(inside@)(i));
                }
            }
            None
        },
        Some(bounds) => Some(CounterStats { area, x_sum, y_sum, bounds }),
    }
}

// --- All measurements ---

/// Everything a feature vector is computed from, as exact numbers.
pub struct GlyphStats {
    pub raster: GrayImage,
    pub bounds: CellBox,
    pub ink: InkSums,
    pub serif: Option<SerifRows>,
    pub strokes: Option<(u32, u32)>,
    pub runs: Option<(u128, usize)>,
    pub counter: Option<CounterStats>,
    pub terminals: TerminalCounts,
    pub outline: usize,
    pub crossings: Vec<usize>,
    pub holes: usize,
    pub symmetry: SymmetryCounts,
    pub skeleton: SkeletonCounts,
    pub corners: usize,
    pub quadrants: Quadrants,
}

impl GlyphStats {
    /// Width of the ink rectangle.
    pub open spec fn ink_w(&self) -> int {
        self.bounds.max_x - self.bounds.min_x + 1
    }

    /// Height of the ink rectangle.
    pub open spec fn ink_h(&self) -> int {
        self.bounds.max_y - self.bounds.min_y + 1
    }

    /// The mask of the ink rectangle.
    pub open spec fn mask(&self) -> Seq<bool> {
        ink_mask_of(self.raster, self.bounds)
    }

    /// All measurements are those of the raster, with `bins` scan lines for the crossings.
    pub open spec fn measured(&self, bins: int) -> bool {
        let w = self.ink_w();
        let h = self.ink_h();
        let mask = self.mask();
        let n = self.raster.data@.len() as int;
        &&& self.raster.wf()
        &&& is_tight(is_ink(self.raster.data@), self.raster.width as int, n, self.bounds)
        &&& are_ink_sums(
            self.raster.data@,
            self.raster.width as int,
            self.bounds,
            n,
            self.ink,
        )
        &&& is_serif_rows(self.raster, self.serif)
        &&& is_stroke_range(self.raster, self.strokes)
        &&& is_run_total(self.raster, self.runs)
        &&& is_counter(enclosed(mask, w, h), w, self.counter)
        &&& self.holes == component_count(enclosed(mask, w, h), w, h)
        &&& self.outline == tally(outline_cell(mask, w, h), w * h)
        &&& self.corners == spec_corners(mask, w, h)
        &&& self.crossings@.len() == bins
        &&& forall|b: int|
            0 <= b < bins ==> #[trigger] self.crossings@[b] == tally(
                crossing_at(mask, w, scan_row(h, bins, b)),
                w,
            )
        &&& self.shape_measured()
    }

    /// The part of the measurements that compares the mask with itself.
    pub open spec fn shape_measured(&self) -> bool {
        let w = self.ink_w();
        let h = self.ink_h();
        let mask = self.mask();
        let skel = skeleton(mask, w, h);
        &&& is_quadrant(mask, w, h, true, true, self.quadrants.top_left)
        &&& is_quadrant(mask, w, h, true, false, self.quadrants.top_right)
        &&& is_quadrant(mask, w, h, false, true, self.quadrants.bottom_left)
        &&& is_quadrant(mask, w, h, false, false, self.quadrants.bottom_right)
        &&& w < 3 || h < 3 ==> {
            &&& self.terminals == (TerminalCounts { up: 0, right: 0, down: 0, left: 0 })
            &&& self.skeleton == (SkeletonCounts { branch_pts: 0, end_pts: 0 })
        }
        &&& w >= 3 && h >= 3 ==> {
            &&& self.terminals.up == tally(terminal_towards(mask, w, h, Heading::Up), w * h)
            &&& self.terminals.right == tally(terminal_towards(mask, w, h, Heading::Right), w * h)
            &&& self.terminals.down == tally(terminal_towards(mask, w, h, Heading::Down), w * h)
            &&& self.terminals.left == tally(terminal_towards(mask, w, h, Heading::Left), w * h)
            &&& self.skeleton.branch_pts == tally(branch_point(skel, w, h), w * h)
            &&& self.skeleton.end_pts == tally(end_point(skel, w, h), w * h)
        }
        &&& w < 2 || h < 2 ==> self.symmetry == (SymmetryCounts {
            h_match: 0,
            h_total: 0,
            v_match: 0,
            v_total: 0,
        })
        &&& w >= 2 && h >= 2 ==> {
            &&& self.symmetry.h_match == tally(mirrored_across(mask, w, h), w * h)
            &&& self.symmetry.v_match == tally(mirrored_down(mask, w, h), w * h)
            &&& self.symmetry.h_total == h * (w / 2)
            &&& self.symmetry.v_total == (h / 2) * w
        }
    }
}

/// Takes all measurements of a raster, or `None` if it has no ink.
pub fn measure(raster: GrayImage, bins: usize) -> (r: Option<GlyphStats>)
    requires
        raster.wf(),
    ensures
        r is None <==> forall|i: int|
            0 <= i < raster.data@.len() ==> !#[trigger] is_ink(raster.data@)(i),
        r is Some ==> r->0.raster == raster && r->0.measured(bins as int),
{
    let bounds: CellBox = match ink_bounds(&raster) {
        None => {
            return None;
        },
        Some(b) => b,
    };
    let ink: InkSums = sum_ink(&raster, bounds);
    let serif: Option<SerifRows> = detect_serif(&raster);
    let strokes: Option<(u32, u32)> = measure_stroke_contrast(&raster);
    let runs: Option<(u128, usize)> = measure_mean_stroke_width(&raster);
    let cells: Vec<bool> = ink_mask(&raster, bounds);
    let mask: &[bool] = cells.as_slice();
    let w: usize = (bounds.max_x - bounds.min_x) as usize + 1;
    let h: usize = (bounds.max_y - bounds.min_y) as usize + 1;
    let reachable: Vec<bool> = flood_fill_from_edges(mask, w, h);
    proof {
        assert(enclosed(mask@, w as int, h as int) =~= Seq::new(
            mask@.len(),
            |i: int| !mask@[i] && !reachable@[i],
        ));
    }
    let counter: Option<CounterStats> = counter_features_from_reachable(
        mask,
        reachable.as_slice(),
        w,
        h,
    );
    let holes: usize = hole_count_from_reachable(mask, reachable.as_slice(), w, h);
    let terminals: TerminalCounts = compute_terminal_angles(mask, w, h);
    let outline: usize = compute_boundary_features(mask, w, h);
    let crossings: Vec<usize> = compute_h_crossings(mask, w, h, bins);
    let symmetry: SymmetryCounts = compute_symmetry(mask, w, h);
    let skel: SkeletonCounts = compute_skeleton_features(mask, w, h);
    let corners: usize = compute_corner_count(mask, w, h);
    let quadrants: Quadrants = compute_quadrant_density(mask, w, h);
    Some(
        GlyphStats {
            raster,
            bounds,
            ink,
            serif,
            strokes,
            runs,
            counter,
            terminals,
            outline,
            crossings,
            holes,
            symmetry,
            skeleton: skel,
            corners,
            quadrants,
        },
    )
}

/// A glyph has a counter just where it has a hole.
pub proof fn law_counter_iff_hole(stats: GlyphStats, bins: int)
    requires
        stats.measured(bins),
    ensures
        stats.counter is Some <==> stats.holes > 0,
{
    let w = stats.ink_w();
    let h = stats.ink_h();
    let inside = enclosed(stats.mask(), w, h);
    let n = w * h;
    assert(inside.len() == n);
    if stats.counter is None {
        lemma_tally_none(component_head(inside, w, h), n);
    } else {
        let c = stats.counter->0;
        let i = choose|i: int| 0 <= i < n && #[trigger] cell_set(inside)(i) && i % w
            == c.bounds.min_x;
        lemma_component_has_head(inside, w, h, i);
        let j = choose|j: int| 0 <= j <= i && #[trigger] component_head(inside, w, h)(j);
        lemma_tally_positive(component_head(inside, w, h), j, n);
    }
}

/// Below any set cell there is the head of a component.
proof fn lemma_component_has_head(open: Seq<bool>, w: int, h: int, i: int)
    requires
        0 <= i < open.len(),
        open[i],
    ensures
        exists|j: int| 0 <= j <= i && #[trigger] component_head(open, w, h)(j),
    decreases i,
{
    if !component_head(open, w, h)(i) {
        let j = choose|j: int| 0 <= j < i && #[trigger] connected(open, w, h, j, i);
        let p = choose|p: Seq<int>| #[trigger]
            is_walk(open, w, h, p) && p[0] == j && p.last() == i;
        assert(open[p[0]]);
        lemma_component_has_head(open, w, h, j);
        let k = choose|k: int| 0 <= k <= j && #[trigger] component_head(open, w, h)(k);
        assert(component_head(open, w, h)(k));
    }
}

// --- What the measurements are ---

/// Ink is what is darker than 200. The rectangle round it touches ink on each of its four sides
/// and leaves none outside; an image without ink has none.
pub proof fn law_ink_rectangle(img: GrayImage, b: Option<CellBox>)
    requires
        img.wf(),
        is_bounds(is_ink(img.data@), img.width as int, img.data@.len() as int, b),
    ensures
        b is None <==> forall|i: int| 0 <= i < img.data@.len() ==> #[trigger] img.data@[i] >= 200,
        b matches Some(r) ==> {
            &&& forall|x: int, y: int|
                0 <= x < img.width && 0 <= y < img.height && #[trigger] img.px(x, y) < 200
                    ==> r.min_x <= x <= r.max_x && r.min_y <= y <= r.max_y
            &&& exists|y: int|
                0 <= y < img.height && #[trigger] img.px(r.min_x as int, y) < 200
            &&& exists|y: int|
                0 <= y < img.height && #[trigger] img.px(r.max_x as int, y) < 200
            &&& exists|x: int| 0 <= x < img.width && #[trigger] img.px(x, r.min_y as int) < 200
            &&& exists|x: int| 0 <= x < img.width && #[trigger] img.px(x, r.max_y as int) < 200
        },
{
    let d = img.data@;
    let w = img.width as int;
    let h = img.height as int;
    let n = d.len() as int;
    let p = is_ink(d);
    match b {
        None => {
            assert forall|i: int| 0 <= i < n implies #[trigger] d[i] >= 200 by {
                assert(!p(i));
            }
        },
        Some(r) => {
            assert forall|x: int, y: int|
                0 <= x < img.width && 0 <= y < img.height && #[trigger] img.px(x, y)
                    < 200 implies r.min_x <= x <= r.max_x && r.min_y <= y <= r.max_y by {
                lemma_flat(w, h, x, y);
                assert(p(y * w + x));
            }
            let i1 = choose|i: int| 0 <= i < n && #[trigger] p(i) && i % w == r.min_x;
            lemma_cell(w, h, i1);
            assert(img.px(r.min_x as int, i1 / w) < 200);
            let i2 = choose|i: int| 0 <= i < n && #[trigger] p(i) && i % w == r.max_x;
            lemma_cell(w, h, i2);
            assert(img.px(r.max_x as int, i2 / w) < 200);
            let i3 = choose|i: int| 0 <= i < n && #[trigger] p(i) && i / w == r.min_y;
            lemma_cell(w, h, i3);
            assert(img.px(i3 % w, r.min_y as int) < 200);
            let i4 = choose|i: int| 0 <= i < n && #[trigger] p(i) && i / w == r.max_y;
            lemma_cell(w, h, i4);
            assert(img.px(i4 % w, r.max_y as int) < 200);
            assert(d[i1] < 200);
        },
    }
}

/// A frame is white and one pixel wide: every pixel of the ink rectangle stands in the canvas
/// one further right and down than in the rectangle, and the ink rectangle of the canvas
/// leaves one pixel on each side.
pub proof fn law_canvas(img: GrayImage, b: CellBox, canvas: GrayImage)
    requires
        img.wf(),
        b.min_x <= b.max_x < img.width,
        b.min_y <= b.max_y < img.height,
        is_tight(is_ink(img.data@), img.width as int, img.data@.len() as int, b),
        is_canvas(img, b, canvas),
    ensures
        forall|x: int, y: int|
            b.min_x <= x <= b.max_x && b.min_y <= y <= b.max_y ==> canvas.px(
                x - b.min_x + 1,
                y - b.min_y + 1,
            ) == #[trigger] img.px(x, y),
        forall|x: int, y: int|
            0 <= x < canvas.width && 0 <= y < canvas.height && (x == 0 || y == 0 || x
                == canvas.width - 1 || y == canvas.height - 1) ==> #[trigger] canvas.px(x, y) == 255,
        canvas.width == b.max_x - b.min_x + 3,
        canvas.height == b.max_y - b.min_y + 3,
        is_tight(
            is_ink(canvas.data@),
            canvas.width as int,
            canvas.data@.len() as int,
            (CellBox {
                min_x: 1,
                max_x: (canvas.width - 2) as u32,
                min_y: 1,
                max_y: (canvas.height - 2) as u32,
            }),
        ),
{
    let w = img.width as int;
    let h = img.height as int;
    let d = img.data@;
    let n = d.len() as int;
    let p = is_ink(d);
    let cw = canvas.width as int;
    let ch = canvas.height as int;
    let q = is_ink(canvas.data@);
    let m = canvas.data@.len() as int;
    assert forall|x: int, y: int| b.min_x <= x <= b.max_x && b.min_y <= y <= b.max_y implies canvas.px(
        x - b.min_x + 1,
        y - b.min_y + 1,
    ) == #[trigger] img.px(x, y) by {
        assert(canvas.px(x - b.min_x + 1, y - b.min_y + 1) == img.px(x, y));
    }
    assert forall|i: int| 0 <= i < m && #[trigger] q(i) implies 1 <= i % cw <= cw - 2 && 1 <= i / cw
        <= ch - 2 by {
        lemma_cell(cw, ch, i);
        assert(canvas.px(i % cw, i / cw) == canvas.data@[i]);
    }
    let i1 = choose|i: int| 0 <= i < n && #[trigger] p(i) && i % w == b.min_x;
    let k1 = lemma_in_canvas(img, b, canvas, i1);
    let i2 = choose|i: int| 0 <= i < n && #[trigger] p(i) && i % w == b.max_x;
    let k2 = lemma_in_canvas(img, b, canvas, i2);
    let i3 = choose|i: int| 0 <= i < n && #[trigger] p(i) && i / w == b.min_y;
    let k3 = lemma_in_canvas(img, b, canvas, i3);
    let i4 = choose|i: int| 0 <= i < n && #[trigger] p(i) && i / w == b.max_y;
    let k4 = lemma_in_canvas(img, b, canvas, i4);
    assert(q(k1) && q(k2) && q(k3) && q(k4));
}

proof fn lemma_in_canvas(img: GrayImage, b: CellBox, canvas: GrayImage, i: int) -> (k: int)
    requires
        img.wf(),
        b.min_x <= b.max_x < img.width,
        b.min_y <= b.max_y < img.height,
        is_tight(is_ink(img.data@), img.width as int, img.data@.len() as int, b),
        is_canvas(img, b, canvas),
        0 <= i < img.data@.len(),
        is_ink(img.data@)(i),
    ensures
        0 <= k < canvas.data@.len(),
        is_ink(canvas.data@)(k),
        k % (canvas.width as int) == i % (img.width as int) - b.min_x + 1,
        k / (canvas.width as int) == i / (img.width as int) - b.min_y + 1,
{
    let w = img.width as int;
    lemma_cell(w, img.height as int, i);
    let x = i % w;
    let y = i / w;
    let cx = x - b.min_x + 1;
    let cy = y - b.min_y + 1;
    lemma_flat(canvas.width as int, canvas.height as int, cx, cy);
    assert(canvas.px(cx, cy) == img.px(x, y));
    cy * canvas.width + cx
}

/// Scaling keeps the proportions of the canvas: the new width is the least that is not too
/// narrow for the new height. Nothing comes of an image without ink, nor where the canvas is so
/// slim that its width times the new height is not more than its height.
pub proof fn law_framed_size(img: GrayImage, target_h: int, r: Option<GrayImage>, b: CellBox)
    requires
        img.wf(),
        0 <= target_h,
        b.min_x <= b.max_x,
        b.min_y <= b.max_y,
        is_tight(is_ink(img.data@), img.width as int, img.data@.len() as int, b),
        is_framed_to(img, target_h, r),
    ensures
        ({
            let cw = b.max_x - b.min_x + 3;
            let ch = b.max_y - b.min_y + 3;
            &&& r is None <==> cw * target_h <= ch
            &&& r matches Some(out) ==> {
                &&& out.height == target_h
                &&& (out.width - 1) * ch < cw * target_h <= out.width * ch
            }
        }),
{
    let p = is_ink(img.data@);
    let n = img.data@.len() as int;
    let cw = b.max_x - b.min_x + 3;
    let ch = b.max_y - b.min_y + 3;
    let a = cw * target_h;
    let s = scaled_w(b, target_h);
    assert forall|c: CellBox| #[trigger] is_tight(p, img.width as int, n, c) implies c == b by {
        law_tight_unique(p, img.width as int, n, c, b);
    }
    vstd::arithmetic::div_mod::lemma_fundamental_div_mod(a + ch - 1, ch);
    vstd::arithmetic::div_mod::lemma_mod_bound(a + ch - 1, ch);
    assert((s - 1) * ch == s * ch - ch && ch * s == s * ch) by (nonlinear_arith);
    assert(s < 2 <==> a <= ch) by (nonlinear_arith)
        requires
            (s - 1) * ch < a <= s * ch,
            ch >= 3,
    ;
    let i = choose|i: int| 0 <= i < n && #[trigger] p(i) && i % (img.width as int) == b.min_x;
    assert(p(i));
}

/// The stroke runs of a line: their number is that of the ink cells that begin a run, which are
/// followed by ink and not preceded by it, and their lengths add up to the ink cells that have
/// ink before or after them on the line. No run is shorter than two.
pub proof fn law_line_runs(data: Seq<u8>, start: int, step: int, len: int)
    requires
        0 <= len <= u32::MAX,
    ensures
        line_runs(data, start, step, len).len() == tally(
            |k: int|
                data[start + k * step] < 200 && (k == 0 || data[start + (k - 1) * step] >= 200) && k
                    + 1 < len && data[start + (k + 1) * step] < 200,
            len,
        ),
        total(value_at(line_runs(data, start, step, len)), line_runs(data, start, step, len).len() as int)
            == tally(
            |k: int|
                data[start + k * step] < 200 && ((k > 0 && data[start + (k - 1) * step] < 200) || (k
                    + 1 < len && data[start + (k + 1) * step] < 200)),
            len,
        ),
        forall|i: int|
            0 <= i < line_runs(data, start, step, len).len() ==> #[trigger] line_runs(
                data,
                start,
                step,
                len,
            )[i] >= 2,
{
    lemma_runs(data, start, step, len);
    let starts = |k: int|
        data[start + k * step] < 200 && (k == 0 || data[start + (k - 1) * step] >= 200) && k + 1
            < len && data[start + (k + 1) * step] < 200;
    let strokes = |k: int|
        data[start + k * step] < 200 && ((k > 0 && data[start + (k - 1) * step] < 200) || (k + 1
            < len && data[start + (k + 1) * step] < 200));
    lemma_tally_same(starts, run_starts(data, start, step, len), len);
    lemma_tally_same(strokes, in_run(data, start, step, len), len);
    let closed = closed_runs(data, start, step, len);
    let run = run_before(data, start, step, len);
    lemma_run_length(data, start, step, len);
    let all = line_runs(data, start, step, len);
    if run >= 2 {
        assert(all =~= closed.push(run as u32));
        lemma_pushed_total(closed, run as u32);
    }
}

/// Of the first `n` cells of a line, `k` begins a run.
spec fn run_starts(data: Seq<u8>, start: int, step: int, n: int) -> spec_fn(int) -> bool {
    |k: int|
        line_ink(data, start, step, k) && (k == 0 || !line_ink(data, start, step, k - 1)) && k + 1
            < n && line_ink(data, start, step, k + 1)
}

/// Of the first `n` cells of a line, `k` is part of a run.
spec fn in_run(data: Seq<u8>, start: int, step: int, n: int) -> spec_fn(int) -> bool {
    |k: int|
        line_ink(data, start, step, k) && ((k > 0 && line_ink(data, start, step, k - 1)) || (k + 1
            < n && line_ink(data, start, step, k + 1)))
}

proof fn lemma_run_length(data: Seq<u8>, start: int, step: int, n: int)
    requires
        0 <= n,
    ensures
        0 <= run_before(data, start, step, n) <= n,
        run_before(data, start, step, n) >= 1 <==> n > 0 && line_ink(data, start, step, n - 1),
        run_before(data, start, step, n) >= 2 <==> n > 1 && line_ink(data, start, step, n - 1)
            && line_ink(data, start, step, n - 2),
    decreases n,
{
    if n > 0 {
        lemma_run_length(data, start, step, n - 1);
    }
}

proof fn lemma_pushed_total(s: Seq<u32>, v: u32)
    ensures
        total(value_at(s.push(v)), s.len() as int + 1) == total(value_at(s), s.len() as int) + v,
{
    lemma_total_same(value_at(s), value_at(s.push(v)), s.len() as int);
}

proof fn lemma_runs(data: Seq<u8>, start: int, step: int, n: int)
    requires
        0 <= n <= u32::MAX,
    ensures
        ({
            let closed = closed_runs(data, start, step, n);
            let run = run_before(data, start, step, n);
            let open = if run >= 2 {
                run
            } else {
                0
            };
            &&& closed.len() + (if run >= 2 {
                1int
            } else {
                0int
            }) == tally(run_starts(data, start, step, n), n)
            &&& total(value_at(closed), closed.len() as int) + open == tally(
                in_run(data, start, step, n),
                n,
            )
            &&& forall|i: int| 0 <= i < closed.len() ==> #[trigger] closed[i] >= 2
        }),
    decreases n,
{
    if n > 0 {
        let m = n - 1;
        lemma_runs(data, start, step, m);
        lemma_run_length(data, start, step, m);
        lemma_run_length(data, start, step, n);
        let s0 = run_starts(data, start, step, m);
        let s1 = run_starts(data, start, step, n);
        let r0 = in_run(data, start, step, m);
        let r1 = in_run(data, start, step, n);
        let before = closed_runs(data, start, step, m);
        let run = run_before(data, start, step, m);
        assert(!s1(m));
        if m > 0 {
            lemma_tally_same(s0, s1, m - 1);
            lemma_tally_same(r0, r1, m - 1);
            assert(tally(s0, m) == tally(s0, m - 1) + (if s0(m - 1) {
                1int
            } else {
                0int
            }));
            assert(tally(s1, m) == tally(s1, m - 1) + (if s1(m - 1) {
                1int
            } else {
                0int
            }));
            assert(tally(r0, m) == tally(r0, m - 1) + (if r0(m - 1) {
                1int
            } else {
                0int
            }));
            assert(tally(r1, m) == tally(r1, m - 1) + (if r1(m - 1) {
                1int
            } else {
                0int
            }));
            assert(!s0(m - 1));
            assert(m == 1 ==> run <= 1);
        }
        let closed = closed_runs(data, start, step, n);
        if !line_ink(data, start, step, m) && run >= 2 {
            lemma_pushed_total(before, run as u32);
            assert(closed == before.push(run as u32));
            assert(closed.len() == before.len() + 1);
        } else {
            assert(closed == before);
        }
        assert(tally(s1, n) == tally(s1, m));
        assert(tally(r1, n) == tally(r1, m) + (if r1(m) {
            1int
        } else {
            0int
        }));
        if m == 0 {
            assert(tally(s1, 0) == 0 && tally(r1, 0) == 0);
            assert(!r1(m));
        } else if !line_ink(data, start, step, m) {
            assert(!r1(m));
            assert(s1(m - 1) == s0(m - 1));
            assert(r1(m - 1) == r0(m - 1));
        } else if run == 0 {
            assert(!line_ink(data, start, step, m - 1));
            assert(!r1(m) && !r1(m - 1) && !s1(m - 1));
        } else if run == 1 {
            assert(r1(m) && r1(m - 1) && s1(m - 1) && !r0(m - 1));
        } else {
            assert(line_ink(data, start, step, m - 1) && line_ink(data, start, step, m - 2));
            assert(r1(m) && r1(m - 1) && !s1(m - 1) && r0(m - 1));
        }
    }
}

/// The runs of an image are those of its rows, from top to bottom, and then those of its
/// columns, from left to right.
pub proof fn law_ink_runs(data: Seq<u8>, w: int, h: int, y: int, x: int)
    requires
        0 <= y,
        0 <= x,
    ensures
        ink_runs(data, w, h) == row_runs(data, w, h) + column_runs(data, w, h, w),
        row_runs(data, w, 0).len() == 0,
        column_runs(data, w, h, 0).len() == 0,
        row_runs(data, w, y + 1) == row_runs(data, w, y) + line_runs(data, y * w, 1, w),
        column_runs(data, w, h, x + 1) == column_runs(data, w, h, x) + line_runs(data, x, w, h),
{
}

/// Stroke widths are measured where both sides are at least four and there are at least four
/// runs, and their mean where there is at least one. Both widths are among the runs, the thin
/// one is not wider than the thick one, at most a tenth of the runs are thinner than the thin
/// one and at most a tenth, and one more, are wider than the thick one.
pub proof fn law_stroke_range(
    img: GrayImage,
    r: Option<(u32, u32)>,
    m: Option<(u128, usize)>,
)
    requires
        is_stroke_range(img, r),
        is_run_total(img, m),
    ensures
        ({
            let runs = ink_runs(img.data@, img.width as int, img.height as int);
            let n = runs.len() as int;
            &&& r is Some <==> img.width >= 4 && img.height >= 4 && n >= 4
            &&& m is Some <==> img.width >= 4 && img.height >= 4 && n >= 1
            &&& m matches Some((sum, count)) ==> count == n && sum == total(
                |i: int| runs[i] as int,
                n,
            )
            &&& r matches Some((thin, thick)) ==> {
                &&& thin <= thick
                &&& 10 * tally(|i: int| runs[i] < thin, n) <= n
                &&& 10 * tally(|i: int| runs[i] <= thin, n) > n - 10
                &&& 10 * tally(|i: int| runs[i] < thick, n) <= 9 * n
                &&& 10 * tally(|i: int| runs[i] <= thick, n) > 9 * n - 10
            }
        }),
{
    let runs = ink_runs(img.data@, img.width as int, img.height as int);
    let n = runs.len() as int;
    if m is Some {
        lemma_total_same(|i: int| runs[i] as int, value_at(runs), n);
    }
    if r is Some {
        let (thin, thick) = r->0;
        lemma_tally_same(|i: int| runs[i] < thin, below(runs, thin as int), n);
        lemma_tally_same(|i: int| runs[i] <= thin, up_to(runs, thin as int), n);
        lemma_tally_same(|i: int| runs[i] < thick, below(runs, thick as int), n);
        lemma_tally_same(|i: int| runs[i] <= thick, up_to(runs, thick as int), n);
        if thin > thick {
            lemma_tally_implies(up_to(runs, thick as int), below(runs, thin as int), n);
        }
    }
}

/// A pixel counts for the rows at the ends or in the middle exactly if it is ink and stands in
/// one of those rows. Where two images differ in one pixel, the count of the rows `from` to
/// `to` differs by that pixel if it stands there.
pub proof fn law_rows_count(a: Seq<u8>, b: Seq<u8>, w: int, from: int, to: int, x: int, y: int)
    requires
        0 <= x < w,
        0 <= from <= to,
        0 <= y,
        forall|k: int| 0 <= k && k != y * w + x ==> #[trigger] a[k] == b[k],
    ensures
        from <= y < to ==> rows_count(b, w, from, to) - rows_count(a, w, from, to) == (if b[y * w
            + x] < 200 {
            1int
        } else {
            0
        }) - (if a[y * w + x] < 200 {
            1int
        } else {
            0
        }),
        y < from || to <= y ==> rows_count(b, w, from, to) == rows_count(a, w, from, to),
{
    let f = row_term(a, w, from);
    let g = row_term(b, w, from);
    assert forall|k: int| 0 <= k < to - from && from + k != y implies #[trigger] f(k) == g(k) by {
        let p = row_ink(a, w, from + k);
        let q = row_ink(b, w, from + k);
        assert forall|c: int| 0 <= c < w implies #[trigger] p(c) == q(c) by {
            lemma_other_row(w, from + k, c, y, x);
        }
        lemma_tally_same(p, q, w);
    }
    if from <= y < to {
        let p = row_ink(a, w, y);
        let q = row_ink(b, w, y);
        assert forall|c: int| 0 <= c < w && c != x implies #[trigger] p(c) == q(c) by {
            assert(0 <= y * w) by (nonlinear_arith)
                requires
                    0 <= y,
                    0 < w,
            ;
            assert(a[y * w + c] == b[y * w + c]);
        }
        lemma_tally_change(p, q, x, w);
        lemma_total_change(f, g, y - from, to - from);
        assert(from + (y - from) == y);
    } else {
        lemma_total_same(f, g, to - from);
    }
}

proof fn lemma_other_row(w: int, r: int, c: int, y: int, x: int)
    requires
        0 <= x < w,
        0 <= c < w,
        0 <= r,
        r != y,
    ensures
        0 <= r * w + c,
        r * w + c != y * w + x,
{
    assert(0 <= r * w) by (nonlinear_arith)
        requires
            0 <= r,
            0 < w,
    ;
    if r < y {
        assert(r * w + w <= y * w) by (nonlinear_arith)
            requires
                r + 1 <= y,
                0 < w,
        ;
    } else {
        assert(y * w + w <= r * w) by (nonlinear_arith)
            requires
                y + 1 <= r,
                0 < w,
        ;
    }
}

/// Rows without ink count nothing.
pub proof fn law_no_rows_count(data: Seq<u8>, w: int, from: int, to: int)
    requires
        from <= to,
        0 <= w,
        forall|k: int| from * w <= k < to * w ==> #[trigger] data[k] >= 200,
    ensures
        rows_count(data, w, from, to) == 0,
{
    let f = row_term(data, w, from);
    assert forall|k: int| 0 <= k < to - from implies #[trigger] f(k) == 0 by {
        let p = row_ink(data, w, from + k);
        assert forall|x: int| 0 <= x < w implies !#[trigger] p(x) by {
            let at = (from + k) * w + x;
            assert(from * w <= at < to * w) by (nonlinear_arith)
                requires
                    at == (from + k) * w + x,
                    0 <= x < w,
                    0 <= k,
                    from + k + 1 <= to,
            ;
            assert(data[at] >= 200);
        }
        lemma_tally_none(p, w);
    }
    lemma_total_none(f, to - from);
}

/// Serif rows are taken where the image is at least three wide and eight high and its ink at
/// least eight high. An eighth of the ink's height is taken at either end, but at least two
/// rows and at most four, and in the middle what lies between a third and two thirds.
pub proof fn law_serif_rows(img: GrayImage, b: CellBox, r: Option<SerifRows>)
    requires
        b.min_y <= b.max_y,
        is_tight(is_ink(img.data@), img.width as int, img.data@.len() as int, b),
        is_serif_rows(img, r),
    ensures
        r is Some <==> img.width >= 3 && img.height >= 8 && b.max_y - b.min_y >= 7,
        r matches Some(s) ==> {
            let ink_h = b.max_y - b.min_y + 1;
            let w = img.width as int;
            &&& 2 <= s.terminal_rows <= 4
            &&& 16 <= ink_h < 40 ==> 8 * s.terminal_rows <= ink_h < 8 * (s.terminal_rows + 1)
            &&& ink_h < 16 ==> s.terminal_rows == 2
            &&& ink_h >= 40 ==> s.terminal_rows == 4
            &&& s.top == rows_count(img.data@, w, b.min_y as int, b.min_y + s.terminal_rows)
            &&& s.bottom == rows_count(img.data@, w, b.max_y - s.terminal_rows + 1, b.max_y + 1)
            &&& exists|from: int, to: int|
                {
                    &&& 3 * (from - b.min_y) <= ink_h < 3 * (from - b.min_y) + 3
                    &&& 3 * (to - b.min_y) <= 2 * ink_h < 3 * (to - b.min_y) + 3
                    &&& s.mid == #[trigger] rows_count(img.data@, w, from, to)
                    &&& s.mid_rows == to - from
                }
        },
{
    let p = is_ink(img.data@);
    let w = img.width as int;
    let n = img.data@.len() as int;
    let c = choose|c: Option<CellBox>| #[trigger] is_bounds(p, w, n, c) && {
        if img.width < 3 || img.height < 8 || c is None || c->0.max_y - c->0.min_y + 1 < 8 {
            r is None
        } else {
            let lo = c->0.min_y as int;
            let hi = c->0.max_y as int;
            let ink_h = hi - lo + 1;
            let from = lo + ink_h / 3;
            let to = lo + 2 * ink_h / 3;
            let w = img.width as int;
            &&& r is Some
            &&& r->0.terminal_rows == end_rows(ink_h)
            &&& r->0.top == rows_count(img.data@, w, lo, lo + end_rows(ink_h))
            &&& r->0.bottom == rows_count(img.data@, w, hi + 1 - end_rows(ink_h), hi + 1)
            &&& r->0.mid_rows == to - from
            &&& r->0.mid == rows_count(img.data@, w, from, to)
        }
    };
    let i = choose|i: int| 0 <= i < n && #[trigger] p(i) && i % w == b.min_x;
    assert(p(i));
    assert(c is Some);
    law_tight_unique(p, w, n, c->0, b);
    if r is Some {
        let ink_h = b.max_y - b.min_y + 1;
        let from = b.min_y + ink_h / 3;
        let to = b.min_y + 2 * ink_h / 3;
        assert(r->0.mid == rows_count(img.data@, w, from, to));
    }
}

/// What a counter's sums are: its area counts the enclosed cells, and its sums add their
/// columns and rows. So the centre lies within the counter's rectangle.
pub proof fn law_counter_centre(inside: Seq<bool>, w: int, h: int, c: CounterStats)
    requires
        0 < w,
        0 <= h,
        inside.len() == w * h,
        is_counter(inside, w, Some(c)),
    ensures
        c.area * c.bounds.min_x <= c.x_sum <= c.area * c.bounds.max_x,
        c.area * c.bounds.min_y <= c.y_sum <= c.area * c.bounds.max_y,
        c.area == tally(|i: int| inside[i], w * h),
        c.x_sum == total(
            |i: int|
                if inside[i] {
                    i % w
                } else {
                    0
                },
            w * h,
        ),
        c.y_sum == total(
            |i: int|
                if inside[i] {
                    i / w
                } else {
                    0
                },
            w * h,
        ),
{
    let n = w * h;
    let p = cell_set(inside);
    lemma_tally_same(p, |i: int| inside[i], n);
    let f = column_if_set(inside, w);
    let g = row_if_set(inside, w);
    lemma_total_same(
        f,
        |i: int|
            if inside[i] {
                i % w
            } else {
                0
            },
        n,
    );
    lemma_total_same(
        g,
        |i: int|
            if inside[i] {
                i / w
            } else {
                0
            },
        n,
    );
    assert forall|i: int| 0 <= i < n && p(i) implies c.bounds.min_x <= #[trigger] f(i)
        <= c.bounds.max_x by {}
    lemma_total_per_tally(f, p, n, c.bounds.min_x as int, c.bounds.max_x as int);
    assert forall|i: int| 0 <= i < n && p(i) implies c.bounds.min_y <= #[trigger] g(i)
        <= c.bounds.max_y by {}
    lemma_total_per_tally(g, p, n, c.bounds.min_y as int, c.bounds.max_y as int);
    let a = c.area as int;
    assert(c.bounds.min_x * a == a * c.bounds.min_x && c.bounds.max_x * a == a * c.bounds.max_x)
        by (nonlinear_arith);
    assert(c.bounds.min_y * a == a * c.bounds.min_y && c.bounds.max_y * a == a * c.bounds.max_y)
        by (nonlinear_arith);
}

/// The mask of an ink rectangle has a cell for each of its pixels, row by row, and the cell of
/// column `x` and row `y` is set exactly if that pixel is darker than 200.
pub proof fn law_ink_mask(img: GrayImage, b: CellBox, x: int, y: int)
    requires
        b.min_x <= x <= b.max_x,
        b.min_y <= y <= b.max_y,
    ensures
        ({
            let iw = b.max_x - b.min_x + 1;
            let k = (y - b.min_y) * iw + (x - b.min_x);
            &&& ink_mask_of(img, b).len() == iw * (b.max_y - b.min_y + 1)
            &&& 0 <= k < ink_mask_of(img, b).len()
            &&& ink_mask_of(img, b)[k] <==> img.px(x, y) < 200
        }),
{
    let iw = b.max_x - b.min_x + 1;
    let ih = b.max_y - b.min_y + 1;
    lemma_flat(iw, ih, x - b.min_x, y - b.min_y);
}

/// A mask below three by three cells has no ends, branches or terminals, and one below two by
/// two no symmetry. Else terminals are counted by the way they point, ends and branches on the
/// skeleton, and the cells of one half are held against those of the other.
pub proof fn law_shape_measured(m: GlyphStats)
    requires
        m.shape_measured(),
        m.ink_w() >= 0,
        m.ink_h() >= 0,
    ensures
        ({
            let w = m.ink_w();
            let h = m.ink_h();
            let ends = m.terminals.up + m.terminals.right + m.terminals.down + m.terminals.left;
            &&& w < 3 || h < 3 ==> ends == 0 && m.skeleton.end_pts == 0 && m.skeleton.branch_pts
                == 0
            &&& w < 2 || h < 2 ==> m.symmetry.h_total == 0 && m.symmetry.v_total == 0
                && m.symmetry.h_match == 0 && m.symmetry.v_match == 0
            &&& w >= 2 && h >= 2 ==> m.symmetry.h_total == h * (w / 2) && m.symmetry.v_total == w * (
            h / 2)
            &&& w >= 3 && h >= 3 ==> m.terminals.up == tally(
                terminal_towards(m.mask(), w, h, Heading::Up),
                w * h,
            ) && m.terminals.right == tally(
                terminal_towards(m.mask(), w, h, Heading::Right),
                w * h,
            ) && m.terminals.down == tally(
                terminal_towards(m.mask(), w, h, Heading::Down),
                w * h,
            ) && m.terminals.left == tally(
                terminal_towards(m.mask(), w, h, Heading::Left),
                w * h,
            )
            &&& is_quadrant(m.mask(), w, h, true, true, m.quadrants.top_left)
            &&& is_quadrant(m.mask(), w, h, false, false, m.quadrants.bottom_right)
            &&& is_quadrant(m.mask(), w, h, true, false, m.quadrants.top_right)
            &&& is_quadrant(m.mask(), w, h, false, true, m.quadrants.bottom_left)
        }),
{
    let w = m.ink_w();
    let h = m.ink_h();
    assert((h / 2) * w == w * (h / 2)) by (nonlinear_arith);
}


} // verus!
