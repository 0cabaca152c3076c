//! Shape measurements on binary glyph masks: terminals, outline, crossings, symmetry,
//! skeleton topology, corners and quadrants, all as exact counts.

use vstd::prelude::*;
use crate::counting::{tally, lemma_tally_bounds, lemma_tally_strict};
use crate::grid::{lemma_cell, lemma_flat};

verus! {

/// The value of the mask at column `x`, row `y`; nothing outside the grid is ink.
pub open spec fn ink_at(mask: Seq<bool>, w: int, h: int, x: int, y: int) -> bool {
    0 <= x < w && 0 <= y < h && mask[y * w + x]
}

/// One for true, zero for false.
pub open spec fn bit(b: bool) -> int {
    if b {
        1
    } else {
        0
    }
}

/// The eight cells round a cell, named by compass direction.
#[derive(Clone, Copy, Debug, PartialEq, Eq, Structural)]
pub struct Ring {
    pub n: bool,
    pub ne: bool,
    pub e: bool,
    pub se: bool,
    pub s: bool,
    pub sw: bool,
    pub w: bool,
    pub nw: bool,
}

/// The ring round column `x`, row `y`.
pub open spec fn ring(mask: Seq<bool>, w: int, h: int, x: int, y: int) -> Ring {
    Ring {
        n: ink_at(mask, w, h, x, y - 1),
        ne: ink_at(mask, w, h, x + 1, y - 1),
        e: ink_at(mask, w, h, x + 1, y),
        se: ink_at(mask, w, h, x + 1, y + 1),
        s: ink_at(mask, w, h, x, y + 1),
        sw: ink_at(mask, w, h, x - 1, y + 1),
        w: ink_at(mask, w, h, x - 1, y),
        nw: ink_at(mask, w, h, x - 1, y - 1),
    }
}

/// The ring round the cell with flat index `i`.
pub open spec fn ring_of(mask: Seq<bool>, w: int, h: int, i: int) -> Ring {
    ring(mask, w, h, i % w, i / w)
}

/// Direction in which a stroke ends.
#[derive(Clone, Copy, Debug, PartialEq, Eq, Structural)]
pub enum Heading {
    Up,
    Right,
    Down,
    Left,
}

impl Ring {
    /// How many of the eight cells are ink.
    pub open spec fn spec_count(self) -> int {
        bit(self.n) + bit(self.ne) + bit(self.e) + bit(self.se) + bit(self.s) + bit(self.sw) + bit(
            self.w,
        ) + bit(self.nw)
    }

    /// How often paper is followed by ink, going round clockwise.
    pub open spec fn spec_transitions(self) -> int {
        bit(!self.n && self.ne) + bit(!self.ne && self.e) + bit(!self.e && self.se) + bit(
            !self.se && self.s,
        ) + bit(!self.s && self.sw) + bit(!self.sw && self.w) + bit(!self.w && self.nw) + bit(
            !self.nw && self.n,
        )
    }

    /// How many of the four edge neighbours are ink.
    pub open spec fn spec_cardinal(self) -> int {
        bit(self.n) + bit(self.e) + bit(self.s) + bit(self.w)
    }

    /// Exactly two edge neighbours are ink, at a right angle, and the cell between them is not.
    pub open spec fn spec_is_corner(self) -> bool {
        self.spec_cardinal() == 2 && {
            ||| (self.n && self.e && !self.ne)
            ||| (self.e && self.s && !self.se)
            ||| (self.s && self.w && !self.sw)
            ||| (self.w && self.n && !self.nw)
        }
    }

    /// For a ring with a single ink cell, the heading away from it. A diagonal neighbour
    /// counts with the edge neighbour that comes next, going round clockwise.
    pub open spec fn spec_heading(self) -> Heading {
        if self.s || self.se {
            Heading::Up
        } else if self.w || self.sw {
            Heading::Right
        } else if self.n || self.nw {
            Heading::Down
        } else {
            Heading::Left
        }
    }

    /// Whether Zhang-Suen thinning drops a cell with this ring in its first or second pass.
    pub open spec fn spec_removable(self, first: bool) -> bool {
        &&& 2 <= self.spec_count() <= 6
        &&& self.spec_transitions() == 1
        &&& if first {
            !(self.n && self.e && self.s) && !(self.e && self.s && self.w)
        } else {
            !(self.n && self.e && self.w) && !(self.n && self.s && self.w)
        }
    }

    pub fn count(self) -> (c: u8)
        ensures
            c == self.spec_count(),
    {
        one_if(self.n) + one_if(self.ne) + one_if(self.e) + one_if(self.se) + one_if(self.s)
            + one_if(self.sw) + one_if(self.w) + one_if(self.nw)
    }

    pub fn transitions(self) -> (c: u8)
        ensures
            c == self.spec_transitions(),
    {
        one_if(!self.n && self.ne) + one_if(!self.ne && self.e) + one_if(!self.e && self.se)
            + one_if(!self.se && self.s) + one_if(!self.s && self.sw) + one_if(
            !self.sw && self.w,
        ) + one_if(!self.w && self.nw) + one_if(!self.nw && self.n)
    }

    pub fn is_corner(self) -> (r: bool)
        ensures
            r == self.spec_is_corner(),
    {
        let cardinal: u8 = one_if(self.n) + one_if(self.e) + one_if(self.s) + one_if(self.w);
        cardinal == 2 && ((self.n && self.e && !self.ne) || (self.e && self.s && !self.se) || (
        self.s && self.w && !self.sw) || (self.w && self.n && !self.nw))
    }

    pub fn heading(self) -> (r: Heading)
        ensures
            r == self.spec_heading(),
    {
        if self.s || self.se {
            Heading::Up
        } else if self.w || self.sw {
            Heading::Right
        } else if self.n || self.nw {
            Heading::Down
        } else {
            Heading::Left
        }
    }

    pub fn removable(self, first: bool) -> (r: bool)
        ensures
            r == self.spec_removable(first),
    {
        let c: u8 = self.count();
        if c < 2 || c > 6 || self.transitions() != 1 {
            return false;
        }
        if first {
            !(self.n && self.e && self.s) && !(self.e && self.s && self.w)
        } else {
            !(self.n && self.e && self.w) && !(self.n && self.s && self.w)
        }
    }
}

fn one_if(b: bool) -> (r: u8)
    ensures
        r == bit(b),
        r <= 1,
{
    if b {
        1
    } else {
        0
    }
}

/// Reads the ring round cell `i`.
pub fn read_ring(mask: &[bool], w: usize, h: usize, i: usize) -> (r: Ring)
    requires
        mask@.len() == w * h,
        i < w * h,
    ensures
        r == ring_of(mask@, w as int, h as int, i as int),
{
    let n_cells: usize = mask.len();
    proof {
        lemma_cell(w as int, h as int, i as int);
    }
    let x: usize = i % w;
    let y: usize = i / w;
    let ghost gx = x as int;
    let ghost gy = y as int;
    proof {
        assert((gy - 1) * w == gy * w - w) by (nonlinear_arith);
        assert((gy + 1) * w == gy * w + w) by (nonlinear_arith);
        if y > 0 {
            lemma_flat(w as int, h as int, gx, gy - 1);
        }
        if y + 1 < h {
            lemma_flat(w as int, h as int, gx, gy + 1);
        }
    }
    let up: bool = y > 0;
    let down: bool = y < h - 1;
    let left: bool = x > 0;
    let right: bool = x < w - 1;
    Ring {
        n: up && mask[i - w],
        ne: up && right && mask[i - w + 1],
        e: right && mask[i + 1],
        se: down && right && mask[i + w + 1],
        s: down && mask[i + w],
        sw: down && left && mask[i + w - 1],
        w: left && mask[i - 1],
        nw: up && left && mask[i - w - 1],
    }
}

// --- Terminals ---

/// Cell `i` is ink with a single ink neighbour, and its stroke ends towards `to`.
pub open spec fn terminal_towards(mask: Seq<bool>, w: int, h: int, to: Heading) -> spec_fn(
    int,
) -> bool {
    |i: int|
        mask[i] && ring_of(mask, w, h, i).spec_count() == 1 && ring_of(mask, w, h, i).spec_heading()
            == to
}

/// How many strokes end in each direction.
#[derive(Clone, Copy, Debug, PartialEq, Eq, Structural)]
pub struct TerminalCounts {
    pub up: usize,
    pub right: usize,
    pub down: usize,
    pub left: usize,
}

/// Counts the stroke ends of a mask by direction; a mask narrower or lower than three
/// cells has none.
pub fn compute_terminal_angles(mask: &[bool], w: usize, h: usize) -> (r: TerminalCounts)
    requires
        mask@.len() == w * h,
    ensures
        w < 3 || h < 3 ==> r == (TerminalCounts { up: 0, right: 0, down: 0, left: 0 }),
        w >= 3 && h >= 3 ==> {
            &&& r.up == tally(terminal_towards(mask@, w as int, h as int, Heading::Up), w * h)
            &&& r.right == tally(
                terminal_towards(mask@, w as int, h as int, Heading::Right),
                w * h,
            )
            &&& r.down == tally(terminal_towards(mask@, w as int, h as int, Heading::Down), w * h)
            &&& r.left == tally(terminal_towards(mask@, w as int, h as int, Heading::Left), w * h)
        },
        r.up + r.right + r.down + r.left <= w * h,
{
    let mut r = TerminalCounts { up: 0, right: 0, down: 0, left: 0 };
    if w < 3 || h < 3 {
        assert(0 <= w * h) by (nonlinear_arith);
        return r;
    }
    let n: usize = mask.len();
    for i in 0..n
        invariant
            n == mask@.len(),
            n == w * h,
            r.up == tally(terminal_towards(mask@, w as int, h as int, Heading::Up), i as int),
            r.right == tally(
                terminal_towards(mask@, w as int, h as int, Heading::Right),
                i as int,
            ),
            r.down == tally(terminal_towards(mask@, w as int, h as int, Heading::Down), i as int),
            r.left == tally(terminal_towards(mask@, w as int, h as int, Heading::Left), i as int),
            r.up + r.right + r.down + r.left <= i,
    {
        if mask[i] {
            let around: Ring = read_ring(mask, w, h, i);
            if around.count() == 1 {
                match around.heading() {
                    Heading::Up => {
                        r.up = r.up + 1;
                    },
                    Heading::Right => {
                        r.right = r.right + 1;
                    },
                    Heading::Down => {
                        r.down = r.down + 1;
                    },
                    Heading::Left => {
                        r.left = r.left + 1;
                    },
                }
            }
        }
    }
    r
}

// --- Outline ---

/// Cell `i` is ink with an edge neighbour that is paper or lies outside the grid.
pub open spec fn outline_cell(mask: Seq<bool>, w: int, h: int) -> spec_fn(int) -> bool {
    |i: int| mask[i] && ring_of(mask, w, h, i).spec_cardinal() < 4
}

/// Counts the outline cells of a mask.
pub fn compute_boundary_features(mask: &[bool], w: usize, h: usize) -> (r: usize)
    requires
        mask@.len() == w * h,
    ensures
        r == tally(outline_cell(mask@, w as int, h as int), w * h),
        r <= w * h,
{
    let mut r: usize = 0;
    let n: usize = mask.len();
    for i in 0..n
        invariant
            n == mask@.len(),
            n == w * h,
            r == tally(outline_cell(mask@, w as int, h as int), i as int),
            r <= i,
    {
        if mask[i] {
            let around: Ring = read_ring(mask, w, h, i);
            if !(around.n && around.e && around.s && around.w) {
                r = r + 1;
            }
        }
    }
    r
}

/// Counts the corners of a mask: interior ink cells whose ring is a corner. Masks that are
/// narrower or lower than three cells, or have fewer than five outline cells, count none.
pub fn compute_corner_count(mask: &[bool], w: usize, h: usize) -> (r: usize)
    requires
        mask@.len() == w * h,
    ensures
        r == spec_corners(mask@, w as int, h as int),
{
    if w < 3 || h < 3 {
        return 0;
    }
    if compute_boundary_features(mask, w, h) < 5 {
        return 0;
    }
    let mut r: usize = 0;
    let n: usize = mask.len();
    for i in 0..n
        invariant
            n == mask@.len(),
            n == w * h,
            r == tally(corner_cell(mask@, w as int, h as int), i as int),
            r <= i,
    {
        proof {
            lemma_cell(w as int, h as int, i as int);
        }
        let x: usize = i % w;
        let y: usize = i / w;
        if mask[i] && 0 < x && x < w - 1 && 0 < y && y < h - 1 {
            if read_ring(mask, w, h, i).is_corner() {
                r = r + 1;
            }
        }
    }
    r
}

/// Cell `i` is neither in the first nor in the last row or column.
pub open spec fn interior(w: int, h: int, i: int) -> bool {
    0 < i % w < w - 1 && 0 < i / w < h - 1
}

pub open spec fn corner_cell(mask: Seq<bool>, w: int, h: int) -> spec_fn(int) -> bool {
    |i: int| mask[i] && interior(w, h, i) && ring_of(mask, w, h, i).spec_is_corner()
}

pub open spec fn spec_corners(mask: Seq<bool>, w: int, h: int) -> int {
    if w < 3 || h < 3 || tally(outline_cell(mask, w, h), w * h) < 5 {
        0
    } else {
        tally(corner_cell(mask, w, h), w * h)
    }
}

// --- Crossings ---

/// The row that scan line `bin` of `bins` evenly spaced ones runs through.
pub open spec fn scan_row(h: int, bins: int, bin: int) -> int {
    let y = (bin + 1) * h / (bins + 1);
    if y < h - 1 {
        y
    } else {
        h - 1
    }
}

/// In row `y`, the mask changes between columns `x - 1` and `x`.
pub open spec fn crossing_at(mask: Seq<bool>, w: int, y: int) -> spec_fn(int) -> bool {
    |x: int| x > 0 && mask[y * w + x] != mask[y * w + x - 1]
}

/// Counts, along each of `bins` evenly spaced rows, the changes between ink and paper.
pub fn compute_h_crossings(mask: &[bool], w: usize, h: usize, bins: usize) -> (r: Vec<usize>)
    requires
        mask@.len() == w * h,
        0 < w,
        0 < h,
    ensures
        r@.len() == bins,
        forall|b: int|
            0 <= b < bins ==> #[trigger] r@[b] == tally(
                crossing_at(mask@, w as int, scan_row(h as int, bins as int, b)),
                w as int,
            ),
{
    let mut r: Vec<usize> = Vec::new();
    let n: usize = mask.len();
    for b in 0..bins
        invariant
            n == w * h,
            mask@.len() == w * h,
            0 < w,
            0 < h,
            r@.len() == b,
            forall|k: int|
                0 <= k < b ==> #[trigger] r@[k] == tally(
                    crossing_at(mask@, w as int, scan_row(h as int, bins as int, k)),
                    w as int,
                ),
    {
        assert(0 <= (b + 1) * h <= 0x1_0000_0000_0000_0000 * 0xffff_ffff_ffff_ffff)
            by (nonlinear_arith)
            requires
                0 <= b < 0xffff_ffff_ffff_ffff,
                0 <= h <= 0xffff_ffff_ffff_ffff,
        ;
        let num: u128 = (b as u128 + 1) * h as u128;
        let raw: u128 = num / (bins as u128 + 1);
        let y: usize = if raw < h as u128 - 1 {
            raw as usize
        } else {
            h - 1
        };
        assert(y == scan_row(h as int, bins as int, b as int));
        let mut changes: usize = 0;
        let mut prev: bool = false;
        proof {
            lemma_flat(w as int, h as int, 0, y as int);
        }
        for x in 0..w
            invariant
                n == w * h,
                mask@.len() == w * h,
                0 <= y * w,
                y * w + w <= w * h,
                x > 0 ==> prev == mask@[y * w + x - 1],
                changes == tally(crossing_at(mask@, w as int, y as int), x as int),
                changes <= x,
        {
            let here: bool = mask[y * w + x];
            if here != prev && x > 0 {
                changes = changes + 1;
            }
            prev = here;
        }
        r.push(changes);
    }
    r
}

// --- Symmetry ---

/// In the left half, cell `i` agrees with its mirror image in the same row.
pub open spec fn mirrored_across(mask: Seq<bool>, w: int, h: int) -> spec_fn(int) -> bool {
    |i: int|
        i % w < w / 2 && mask[i] == mask[(i / w) * w + (w - 1 - i % w)]
}

/// In the upper half, cell `i` agrees with its mirror image in the same column.
pub open spec fn mirrored_down(mask: Seq<bool>, w: int, h: int) -> spec_fn(int) -> bool {
    |i: int|
        i / w < h / 2 && mask[i] == mask[(h - 1 - i / w) * w + i % w]
}

/// Matches and comparisons under left-right and top-bottom mirroring.
#[derive(Clone, Copy, Debug, PartialEq, Eq, Structural)]
pub struct SymmetryCounts {
    pub h_match: usize,
    pub h_total: usize,
    pub v_match: usize,
    pub v_total: usize,
}

/// Compares a mask with its mirror images; a mask with a side shorter than two is not compared.
pub fn compute_symmetry(mask: &[bool], w: usize, h: usize) -> (r: SymmetryCounts)
    requires
        mask@.len() == w * h,
    ensures
        w < 2 || h < 2 ==> r == (SymmetryCounts {
            h_match: 0,
            h_total: 0,
            v_match: 0,
            v_total: 0,
        }),
        w >= 2 && h >= 2 ==> {
            &&& r.h_match == tally(mirrored_across(mask@, w as int, h as int), w * h)
            &&& r.v_match == tally(mirrored_down(mask@, w as int, h as int), w * h)
            &&& r.h_total == h * (w as int / 2)
            &&& r.v_total == (h as int / 2) * w
        },
{
    if w < 2 || h < 2 {
        return SymmetryCounts { h_match: 0, h_total: 0, v_match: 0, v_total: 0 };
    }
    let n: usize = mask.len();
    let mut h_match: usize = 0;
    let mut v_match: usize = 0;
    for i in 0..n
        invariant
            n == mask@.len(),
            n == w * h,
            h_match == tally(mirrored_across(mask@, w as int, h as int), i as int),
            v_match == tally(mirrored_down(mask@, w as int, h as int), i as int),
            h_match <= i,
            v_match <= i,
    {
        proof {
            lemma_cell(w as int, h as int, i as int);
        }
        let x: usize = i % w;
        let y: usize = i / w;
        proof {
            lemma_flat(w as int, h as int, w - 1 - x, y as int);
            lemma_flat(w as int, h as int, x as int, h - 1 - y);
        }
        if x < w / 2 && mask[i] == mask[y * w + (w - 1 - x)] {
            h_match = h_match + 1;
        }
        if y < h / 2 && mask[i] == mask[(h - 1 - y) * w + x] {
            v_match = v_match + 1;
        }
    }
    assert(h * (w as int / 2) <= w * h) by (nonlinear_arith)
        requires
            w >= 2,
            h >= 2,
    ;
    assert((h as int / 2) * w <= w * h) by (nonlinear_arith)
        requires
            w >= 2,
            h >= 2,
    ;
    assert(0 <= h * (w as int / 2) && 0 <= (h as int / 2) * w) by (nonlinear_arith)
        requires
            w >= 2,
            h >= 2,
    ;
    SymmetryCounts { h_match, h_total: h * (w / 2), v_match, v_total: (h / 2) * w }
}

/// A mask equal to its left-right mirror image matches in every comparison.
pub proof fn law_symmetric_mask(mask: Seq<bool>, w: int, h: int)
    requires
        w >= 2,
        h >= 2,
        mask.len() == w * h,
        forall|x: int, y: int|
            0 <= x < w && 0 <= y < h ==> #[trigger] ink_at(mask, w, h, x, y) == ink_at(
                mask,
                w,
                h,
                w - 1 - x,
                y,
            ),
    ensures
        forall|i: int|
            0 <= i < w * h && i % w < w / 2 ==> #[trigger] mirrored_across(mask, w, h)(i),
{
    assert forall|i: int| 0 <= i < w * h && i % w < w / 2 implies #[trigger] mirrored_across(
        mask,
        w,
        h,
    )(i) by {
        lemma_cell(w, h, i);
        assert(ink_at(mask, w, h, i % w, i / w) == ink_at(mask, w, h, w - 1 - i % w, i / w));
        assert((i / w) * w + i % w == i);
    }
}

// --- Quadrants ---

/// Cell `i` lies in the upper (`top`) and left (`left`) half, or in the other one.
pub open spec fn in_quadrant(w: int, h: int, top: bool, left: bool, i: int) -> bool {
    (i / w < h / 2) == top && (i % w < w / 2) == left
}

pub open spec fn quadrant_ink(
    mask: Seq<bool>,
    w: int,
    h: int,
    top: bool,
    left: bool,
) -> spec_fn(int) -> bool {
    |i: int| mask[i] && in_quadrant(w, h, top, left, i)
}

pub open spec fn quadrant_cell(w: int, h: int, top: bool, left: bool) -> spec_fn(int) -> bool {
    |i: int| in_quadrant(w, h, top, left, i)
}

/// Ink cells and all cells of one quadrant.
#[derive(Clone, Copy, Debug, PartialEq, Eq, Structural)]
pub struct QuadrantCount {
    pub ink: usize,
    pub area: usize,
}

/// Counts the ink of one quadrant.
fn count_quadrant(mask: &[bool], w: usize, h: usize, top: bool, left: bool) -> (r:
    QuadrantCount)
    requires
        mask@.len() == w * h,
    ensures
        r.ink == tally(quadrant_ink(mask@, w as int, h as int, top, left), w * h),
        r.area == tally(quadrant_cell(w as int, h as int, top, left), w * h),
{
    let n: usize = mask.len();
    let mut r = QuadrantCount { ink: 0, area: 0 };
    for i in 0..n
        invariant
            n == mask@.len(),
            n == w * h,
            r.ink == tally(quadrant_ink(mask@, w as int, h as int, top, left), i as int),
            r.area == tally(quadrant_cell(w as int, h as int, top, left), i as int),
            r.ink <= i,
            r.area <= i,
    {
        proof {
            lemma_cell(w as int, h as int, i as int);
        }
        if (i / w < h / 2) == top && (i % w < w / 2) == left {
            r.area = r.area + 1;
            if mask[i] {
                r.ink = r.ink + 1;
            }
        }
    }
    r
}

/// Ink and area of the four quadrants.
#[derive(Clone, Copy, Debug, PartialEq, Eq, Structural)]
pub struct Quadrants {
    pub top_left: QuadrantCount,
    pub top_right: QuadrantCount,
    pub bottom_left: QuadrantCount,
    pub bottom_right: QuadrantCount,
}

/// `q` holds ink and area of the quadrant that `top` and `left` pick.
pub open spec fn is_quadrant(
    mask: Seq<bool>,
    w: int,
    h: int,
    top: bool,
    left: bool,
    q: QuadrantCount,
) -> bool {
    &&& q.ink == tally(quadrant_ink(mask, w, h, top, left), w * h)
    &&& q.area == tally(quadrant_cell(w, h, top, left), w * h)
}

/// Counts ink and area of each quadrant of a mask.
pub fn compute_quadrant_density(mask: &[bool], w: usize, h: usize) -> (r: Quadrants)
    requires
        mask@.len() == w * h,
    ensures
        is_quadrant(mask@, w as int, h as int, true, true, r.top_left),
        is_quadrant(mask@, w as int, h as int, true, false, r.top_right),
        is_quadrant(mask@, w as int, h as int, false, true, r.bottom_left),
        is_quadrant(mask@, w as int, h as int, false, false, r.bottom_right),
{
    Quadrants {
        top_left: count_quadrant(mask, w, h, true, true),
        top_right: count_quadrant(mask, w, h, true, false),
        bottom_left: count_quadrant(mask, w, h, false, true),
        bottom_right: count_quadrant(mask, w, h, false, false),
    }
}

/// Every cell lies in one quadrant: the four areas add up to the grid.
pub proof fn law_quadrants_cover(w: int, h: int, n: int)
    requires
        0 <= n,
    ensures
        tally(quadrant_cell(w, h, true, true), n) + tally(quadrant_cell(w, h, true, false), n)
            + tally(quadrant_cell(w, h, false, true), n) + tally(
            quadrant_cell(w, h, false, false),
            n,
        ) == n,
    decreases n,
{
    if n > 0 {
        law_quadrants_cover(w, h, n - 1);
    }
}

// --- Skeleton ---

/// The ink cells, as a predicate on indices.
pub open spec fn ink_cell(mask: Seq<bool>) -> spec_fn(int) -> bool {
    |i: int| mask[i]
}

/// Whether a thinning pass drops cell `i`.
pub open spec fn thinned_away(mask: Seq<bool>, w: int, h: int, first: bool, i: int) -> bool {
    mask[i] && interior(w, h, i) && ring_of(mask, w, h, i).spec_removable(first)
}

/// One Zhang-Suen pass: all removable cells are dropped at once.
pub open spec fn thin_pass(mask: Seq<bool>, w: int, h: int, first: bool) -> Seq<bool> {
    Seq::new(mask.len(), |i: int| mask[i] && !thinned_away(mask, w, h, first, i))
}

/// A first pass followed by a second one.
pub open spec fn thin_round(mask: Seq<bool>, w: int, h: int) -> Seq<bool> {
    thin_pass(thin_pass(mask, w, h, true), w, h, false)
}

/// What is left when thinning rounds change nothing any more.
pub open spec fn skeleton(mask: Seq<bool>, w: int, h: int) -> Seq<bool>
    decreases tally(ink_cell(mask), mask.len() as int),
{
    let next = thin_round(mask, w, h);
    if next == mask {
        mask
    } else {
        proof {
            lemma_round_shrinks(mask, w, h);
        }
        skeleton(next, w, h)
    }
}

/// A round that changes a mask leaves fewer ink cells.
pub proof fn lemma_round_shrinks(mask: Seq<bool>, w: int, h: int)
    ensures
        thin_round(mask, w, h).len() == mask.len(),
        forall|i: int| 0 <= i < mask.len() && thin_round(mask, w, h)[i] ==> #[trigger] mask[i],
        thin_round(mask, w, h) != mask ==> tally(
            ink_cell(thin_round(mask, w, h)),
            mask.len() as int,
        ) < tally(ink_cell(mask), mask.len() as int),
        0 <= tally(ink_cell(thin_round(mask, w, h)), mask.len() as int),
{
    let next = thin_round(mask, w, h);
    lemma_tally_bounds(ink_cell(next), mask.len() as int);
    if next != mask {
        if forall|i: int| 0 <= i < mask.len() ==> next[i] == mask[i] {
            assert(next =~= mask);
        }
        let k = choose|k: int| 0 <= k < mask.len() && next[k] != mask[k];
        lemma_tally_strict(ink_cell(next), ink_cell(mask), k, mask.len() as int);
    }
}

/// The skeleton is part of the ink, and thinning it again changes nothing.
pub proof fn law_skeleton_thin(mask: Seq<bool>, w: int, h: int)
    ensures
        skeleton(mask, w, h).len() == mask.len(),
        forall|i: int| 0 <= i < mask.len() && skeleton(mask, w, h)[i] ==> #[trigger] mask[i],
        thin_round(skeleton(mask, w, h), w, h) == skeleton(mask, w, h),
        skeleton(skeleton(mask, w, h), w, h) == skeleton(mask, w, h),
    decreases tally(ink_cell(mask), mask.len() as int),
{
    let next = thin_round(mask, w, h);
    if next != mask {
        lemma_round_shrinks(mask, w, h);
        law_skeleton_thin(next, w, h);
        assert forall|i: int| 0 <= i < mask.len() && skeleton(mask, w, h)[i] implies #[trigger] mask[i] by {
            assert(next[i]);
        }
    }
}

/// Runs one thinning pass; the second result tells whether a cell was dropped.
fn run_pass(mask: &[bool], w: usize, h: usize, first: bool) -> (r: (Vec<bool>, bool))
    requires
        mask@.len() == w * h,
    ensures
        r.0@ == thin_pass(mask@, w as int, h as int, first),
        r.1 == (r.0@ != mask@),
{
    let n: usize = mask.len();
    let mut out: Vec<bool> = Vec::new();
    let mut changed: bool = false;
    for i in 0..n
        invariant
            n == mask@.len(),
            n == w * h,
            out@.len() == i,
            forall|k: int|
                0 <= k < i ==> #[trigger] out@[k] == thin_pass(
                    mask@,
                    w as int,
                    h as int,
                    first,
                )[k],
            changed <==> exists|k: int| 0 <= k < i && #[trigger] out@[k] != mask@[k],
    {
        proof {
            lemma_cell(w as int, h as int, i as int);
        }
        let x: usize = i % w;
        let y: usize = i / w;
        let mut keep: bool = mask[i];
        if keep && 0 < x && x < w - 1 && 0 < y && y < h - 1 {
            if read_ring(mask, w, h, i).removable(first) {
                keep = false;
                changed = true;
            }
        }
        let ghost before = out@;
        out.push(keep);
        proof {
            assert forall|k: int| 0 <= k < i implies #[trigger] out@[k] == before[k] by {}
            if changed {
                if keep != mask@[i as int] {
                    assert(out@[i as int] != mask@[i as int]);
                } else {
                    let k = choose|k: int| 0 <= k < i && #[trigger] before[k] != mask@[k];
                    assert(out@[k] != mask@[k]);
                }
            }
        }
    }
    assert(out@ =~= thin_pass(mask@, w as int, h as int, first));
    proof {
        if !changed {
            assert(out@ =~= mask@);
        }
    }
    (out, changed)
}

/// Thins a mask to its skeleton.
pub fn thin(mask: &[bool], w: usize, h: usize) -> (r: Vec<bool>)
    requires
        mask@.len() == w * h,
    ensures
        r@ == skeleton(mask@, w as int, h as int),
{
    let mut img: Vec<bool> = Vec::new();
    let n: usize = mask.len();
    for i in 0..n
        invariant
            n == mask@.len(),
            img@.len() == i,
            forall|k: int| 0 <= k < i ==> img@[k] == mask@[k],
    {
        img.push(mask[i]);
    }
    assert(img@ =~= mask@);
    loop
        invariant_except_break
            img@.len() == w * h,
            skeleton(img@, w as int, h as int) == skeleton(mask@, w as int, h as int),
        ensures
            img@ == skeleton(mask@, w as int, h as int),
        decreases tally(ink_cell(img@), w * h),
    {
        let ghost start = img@;
        let (half, c1) = run_pass(img.as_slice(), w, h, true);
        let (full, c2) = run_pass(half.as_slice(), w, h, false);
        proof {
            lemma_round_shrinks(start, w as int, h as int);
            assert(full@ == thin_round(start, w as int, h as int));
            if full@ == start {
                assert(half@ =~= start);
            }
        }
        img = full;
        if !c1 && !c2 {
            break ;
        }
    }
    img
}

/// Cell `i` of a skeleton has a single neighbour.
pub open spec fn end_point(skel: Seq<bool>, w: int, h: int) -> spec_fn(int) -> bool {
    |i: int| skel[i] && interior(w, h, i) && ring_of(skel, w, h, i).spec_count() == 1
}

/// Cell `i` of a skeleton has three neighbours or more.
pub open spec fn branch_point(skel: Seq<bool>, w: int, h: int) -> spec_fn(int) -> bool {
    |i: int| skel[i] && interior(w, h, i) && ring_of(skel, w, h, i).spec_count() >= 3
}

/// Branch points and end points of a skeleton.
#[derive(Clone, Copy, Debug, PartialEq, Eq, Structural)]
pub struct SkeletonCounts {
    pub branch_pts: usize,
    pub end_pts: usize,
}

/// Counts the branch points and end points of a mask's skeleton, away from the border;
/// a mask with a side shorter than three has none.
pub fn compute_skeleton_features(mask: &[bool], w: usize, h: usize) -> (r: SkeletonCounts)
    requires
        mask@.len() == w * h,
    ensures
        w < 3 || h < 3 ==> r == (SkeletonCounts { branch_pts: 0, end_pts: 0 }),
        w >= 3 && h >= 3 ==> {
            let skel = skeleton(mask@, w as int, h as int);
            &&& r.branch_pts == tally(branch_point(skel, w as int, h as int), w * h)
            &&& r.end_pts == tally(end_point(skel, w as int, h as int), w * h)
        },
{
    let mut r = SkeletonCounts { branch_pts: 0, end_pts: 0 };
    if w < 3 || h < 3 {
        return r;
    }
    proof {
        law_skeleton_thin(mask@, w as int, h as int);
    }
    let skel: Vec<bool> = thin(mask, w, h);
    let n: usize = skel.len();
    for i in 0..n
        invariant
            n == skel@.len(),
            n == w * h,
            r.branch_pts == tally(branch_point(skel@, w as int, h as int), i as int),
            r.end_pts == tally(end_point(skel@, w as int, h as int), i as int),
            r.branch_pts <= i,
            r.end_pts <= i,
    {
        proof {
            lemma_cell(w as int, h as int, i as int);
        }
        let x: usize = i % w;
        let y: usize = i / w;
        if skel[i] && 0 < x && x < w - 1 && 0 < y && y < h - 1 {
            let c: u8 = read_ring(skel.as_slice(), w, h, i).count();
            if c == 1 {
                r.end_pts = r.end_pts + 1;
            }
            if c >= 3 {
                r.branch_pts = r.branch_pts + 1;
            }
        }
    }
    r
}

// --- What the measurements are ---

/// A quarter turn clockwise: what stood to the north stands to the east.
pub open spec fn turned(r: Ring) -> Ring {
    Ring { n: r.w, ne: r.nw, e: r.n, se: r.ne, s: r.e, sw: r.se, w: r.s, nw: r.sw }
}

/// The ring of a cell holds its eight neighbours by their direction; what lies beyond the edge
/// of the grid is no ink.
pub proof fn law_ring_neighbours(mask: Seq<bool>, w: int, h: int, i: int)
    requires
        0 <= w,
        0 <= h,
        mask.len() == w * h,
        0 <= i < w * h,
    ensures
        ({
            let r = ring_of(mask, w, h, i);
            &&& r.n <==> i / w > 0 && mask[i - w]
            &&& r.s <==> i / w < h - 1 && mask[i + w]
            &&& r.w <==> i % w > 0 && mask[i - 1]
            &&& r.e <==> i % w < w - 1 && mask[i + 1]
            &&& r.nw <==> i / w > 0 && i % w > 0 && mask[i - w - 1]
            &&& r.ne <==> i / w > 0 && i % w < w - 1 && mask[i - w + 1]
            &&& r.sw <==> i / w < h - 1 && i % w > 0 && mask[i + w - 1]
            &&& r.se <==> i / w < h - 1 && i % w < w - 1 && mask[i + w + 1]
        }),
{
    lemma_cell(w, h, i);
    let y = i / w;
    assert((y - 1) * w == y * w - w) by (nonlinear_arith);
    assert((y + 1) * w == y * w + w) by (nonlinear_arith);
}

/// Turning a ring by a quarter changes neither how much ink it has, nor how often ink begins,
/// nor whether it is a corner. A ring and its negative have eight ink cells between them, and
/// ink begins as often as it ends.
#[verifier::spinoff_prover]
#[verifier::rlimit(60)]
pub proof fn law_ring_turns(r: Ring)
    ensures
        turned(r).spec_count() == r.spec_count(),
        turned(r).spec_transitions() == r.spec_transitions(),
        turned(r).spec_cardinal() == r.spec_cardinal(),
        turned(r).spec_is_corner() == r.spec_is_corner(),
        ({
            let o = Ring {
                n: !r.n,
                ne: !r.ne,
                e: !r.e,
                se: !r.se,
                s: !r.s,
                sw: !r.sw,
                w: !r.w,
                nw: !r.nw,
            };
            &&& r.spec_count() + o.spec_count() == 8
            &&& r.spec_cardinal() + o.spec_cardinal() == 4
            &&& r.spec_transitions() == o.spec_transitions()
        }),
        0 <= r.spec_transitions() <= 4,
        r.spec_transitions() == 0 <==> r.spec_count() == 0 || r.spec_count() == 8,
        r.spec_count() == 0 <==> !(r.n || r.ne || r.e || r.se || r.s || r.sw || r.w || r.nw),
        r.spec_cardinal() == 4 <==> r.n && r.e && r.s && r.w,
        r.spec_cardinal() <= r.spec_count() <= r.spec_cardinal() + 4,
{
}

/// One more ink cell in a ring counts one more; and among the edge neighbours, only where it
/// is one of them.
pub proof fn law_ring_grows(r: Ring)
    ensures
        r.spec_count() - (Ring { n: false, ..r }).spec_count() == bit(r.n),
        r.spec_count() - (Ring { ne: false, ..r }).spec_count() == bit(r.ne),
        r.spec_cardinal() - (Ring { n: false, ..r }).spec_cardinal() == bit(r.n),
        r.spec_cardinal() == (Ring { ne: false, ..r }).spec_cardinal(),
        bit(true) == 1,
        bit(false) == 0,
{
}

/// Where north and east are the ink among the edge neighbours, the cell is a corner exactly if
/// the north-east cell is paper. A corner has two edge neighbours, and they do not face each
/// other.
pub proof fn law_ring_corner(r: Ring)
    ensures
        r.n && r.e && !r.s && !r.w ==> (r.spec_is_corner() <==> !r.ne),
        r.spec_is_corner() ==> (r.n != r.s) && (r.e != r.w),
{
}

/// A stroke that goes on to the south or south-east ends upwards, and with the ring turns the
/// heading.
pub proof fn law_ring_heading(r: Ring)
    requires
        r.spec_count() == 1,
    ensures
        r.s || r.se ==> r.spec_heading() == Heading::Up,
        r.spec_heading() == Heading::Up ==> turned(r).spec_heading() == Heading::Right,
        r.spec_heading() == Heading::Right ==> turned(r).spec_heading() == Heading::Down,
        r.spec_heading() == Heading::Down ==> turned(r).spec_heading() == Heading::Left,
        r.spec_heading() == Heading::Left ==> turned(r).spec_heading() == Heading::Up,
{
}

/// A thinning pass drops a cell only where its ring has two to six ink cells in one stretch.
/// The first pass keeps it where both east and south are ink and north or west is too. The
/// second pass is the first, turned by half a circle.
pub proof fn law_ring_removable(r: Ring)
    ensures
        r.spec_removable(true) <==> 2 <= r.spec_count() <= 6 && r.spec_transitions() == 1 && !(r.e
            && r.s && (r.n || r.w)),
        r.spec_removable(false) == turned(turned(r)).spec_removable(true),
{
}

/// A thinning pass drops the removable ink cells that are not in the first or last row or
/// column, and keeps all other ink.
pub proof fn law_thin_pass(mask: Seq<bool>, w: int, h: int, first: bool, i: int)
    requires
        0 <= w,
        0 <= h,
        mask.len() == w * h,
        0 <= i < w * h,
    ensures
        thin_pass(mask, w, h, first).len() == mask.len(),
        thin_pass(mask, w, h, first)[i] <==> mask[i] && (i % w == 0 || i % w == w - 1 || i / w == 0
            || i / w == h - 1 || !ring_of(mask, w, h, i).spec_removable(first)),
{
    lemma_cell(w, h, i);
}

/// A mask and what a first and a second pass leave of it have the same skeleton. A mask that
/// the two passes leave as it is, is its own skeleton.
pub proof fn law_skeleton_rounds(mask: Seq<bool>, w: int, h: int)
    ensures
        ({
            let next = thin_pass(thin_pass(mask, w, h, true), w, h, false);
            &&& skeleton(next, w, h) == skeleton(mask, w, h)
            &&& next == mask ==> skeleton(mask, w, h) == mask
        }),
{
    let next = thin_round(mask, w, h);
    if next == mask {
        assert(skeleton(mask, w, h) == mask);
    }
}

/// An ink cell is on the outline exactly if it is on the edge of the grid or one of the four
/// cells that share an edge with it is paper.
pub proof fn law_outline_cell(mask: Seq<bool>, w: int, h: int, i: int)
    requires
        0 <= w,
        0 <= h,
        mask.len() == w * h,
        0 <= i < w * h,
    ensures
        outline_cell(mask, w, h)(i) <==> mask[i] && (i % w == 0 || i % w == w - 1 || i / w == 0 || i
            / w == h - 1 || !mask[i - 1] || !mask[i + 1] || !mask[i - w] || !mask[i + w]),
{
    lemma_cell(w, h, i);
    law_ring_neighbours(mask, w, h, i);
    law_ring_turns(ring_of(mask, w, h, i));
}

/// Corners, ends and branches are counted off the edge of the grid, stroke ends anywhere. A
/// corner is an ink cell with a corner for a ring, an end one with a single ink neighbour, and
/// a branch one with three or more.
pub proof fn law_counted_cells(mask: Seq<bool>, w: int, h: int, i: int, to: Heading)
    requires
        0 <= w,
        0 <= h,
        mask.len() == w * h,
        0 <= i < w * h,
    ensures
        ({
            let r = ring_of(mask, w, h, i);
            let inside = i % w > 0 && i % w < w - 1 && i / w > 0 && i / w < h - 1;
            &&& corner_cell(mask, w, h)(i) <==> mask[i] && inside && r.spec_is_corner()
            &&& end_point(mask, w, h)(i) <==> mask[i] && inside && r.spec_count() == 1
            &&& branch_point(mask, w, h)(i) <==> mask[i] && inside && r.spec_count() > 2
            &&& terminal_towards(mask, w, h, to)(i) <==> mask[i] && r.spec_count() == 1
                && r.spec_heading() == to
        }),
{
}

/// A mask with fewer than five outline cells or a side shorter than three has no corner; any
/// other has one for each corner cell.
pub proof fn law_corners(mask: Seq<bool>, w: int, h: int)
    ensures
        w <= 2 || h <= 2 || tally(outline_cell(mask, w, h), w * h) <= 4 ==> spec_corners(mask, w, h)
            == 0,
        w > 2 && h > 2 && tally(outline_cell(mask, w, h), w * h) > 4 ==> spec_corners(mask, w, h)
            == tally(corner_cell(mask, w, h), w * h),
{
}

/// Scan lines lie in the grid, at their share of the height rounded down, and none lies above
/// the one before it.
pub proof fn law_scan_rows(h: int, bins: int, bin: int)
    requires
        1 <= h,
        0 <= bin < bins,
    ensures
        0 <= scan_row(h, bins, bin) < h,
        (bins + 1) * scan_row(h, bins, bin) <= (bin + 1) * h < (bins + 1) * (scan_row(h, bins, bin)
            + 1),
        bin + 1 < bins ==> scan_row(h, bins, bin) <= scan_row(h, bins, bin + 1),
{
    let a = (bin + 1) * h;
    let d = bins + 1;
    let y = a / d;
    vstd::arithmetic::div_mod::lemma_fundamental_div_mod(a, d);
    vstd::arithmetic::div_mod::lemma_mod_bound(a, d);
    assert(d * (y + 1) == d * y + d) by (nonlinear_arith);
    assert(0 <= a && a < d * h) by (nonlinear_arith)
        requires
            a == (bin + 1) * h,
            d == bins + 1,
            0 <= bin < bins,
            h >= 1,
    ;
    assert(0 <= y < h) by (nonlinear_arith)
        requires
            d * y <= a < d * y + d,
            0 <= a < d * h,
            d >= 1,
    ;
    let b = (bin + 2) * h;
    assert(a <= b) by (nonlinear_arith)
        requires
            a == (bin + 1) * h,
            b == (bin + 2) * h,
            h >= 1,
    ;
    vstd::arithmetic::div_mod::lemma_div_is_ordered(a, b, d);
}

/// Along a row the mask changes an odd number of times exactly if its ends differ, and never
/// where it is all ink or all paper.
pub proof fn law_crossings(mask: Seq<bool>, w: int, y: int, n: int)
    requires
        1 <= n,
    ensures
        tally(crossing_at(mask, w, y), n) % 2 == (if mask[y * w] == mask[y * w + n - 1] {
            0int
        } else {
            1
        }),
        0 <= tally(crossing_at(mask, w, y), n) <= n - 1,
        tally(crossing_at(mask, w, y), n) == 0 <==> forall|x: int|
            0 <= x < n ==> #[trigger] mask[y * w + x] == mask[y * w],
    decreases n,
{
    let p = crossing_at(mask, w, y);
    if n == 1 {
        assert(!p(0));
        assert(tally(p, 0) == 0);
    } else {
        law_crossings(mask, w, y, n - 1);
        assert(p(n - 1) == (mask[y * w + (n - 1)] != mask[y * w + (n - 1) - 1]));
        assert(y * w + (n - 1) - 1 == y * w + (n - 2));
        assert(y * w + (n - 1) == y * w + n - 1);
        if tally(p, n) == 0 {
            assert forall|x: int| 0 <= x < n implies #[trigger] mask[y * w + x] == mask[y * w] by {
                assert(mask[y * w + (n - 2)] == mask[y * w]);
            }
        }
        if forall|x: int| 0 <= x < n ==> #[trigger] mask[y * w + x] == mask[y * w] {
            assert(mask[y * w + (n - 1)] == mask[y * w]);
            assert(mask[y * w + (n - 2)] == mask[y * w]);
        }
    }
}

/// A cell in the left half is compared with the one as far from the right edge, and a cell in
/// the upper half with the one as far from the lower edge.
pub proof fn law_mirrored_cells(mask: Seq<bool>, w: int, h: int, x: int, y: int)
    requires
        0 <= x < w,
        0 <= y < h,
        mask.len() == w * h,
    ensures
        mirrored_across(mask, w, h)(y * w + x) <==> x < w / 2 && mask[y * w + x] == mask[y * w + w
            - 1 - x],
        mirrored_down(mask, w, h)(y * w + x) <==> y < h / 2 && mask[y * w + x] == mask[(h - 1 - y)
            * w + x],
{
    lemma_flat(w, h, x, y);
}

/// How many comparisons there are: each row compares its left half, rounded down, and each
/// column its upper half. No more can match.
pub proof fn law_symmetry_totals(mask: Seq<bool>, w: int, h: int)
    requires
        0 < w,
        0 <= h,
        mask.len() == w * h,
    ensures
        0 <= tally(mirrored_across(mask, w, h), w * h) <= h * (w / 2),
        0 <= tally(mirrored_down(mask, w, h), w * h) <= (h / 2) * w,
        (forall|x: int, y: int|
            0 <= x < w && 0 <= y < h ==> #[trigger] ink_at(mask, w, h, x, y) == ink_at(
                mask,
                w,
                h,
                w - 1 - x,
                y,
            )) ==> tally(mirrored_across(mask, w, h), w * h) == h * (w / 2),
        (forall|x: int, y: int|
            0 <= x < w && 0 <= y < h ==> #[trigger] ink_at(mask, w, h, x, y) == ink_at(
                mask,
                w,
                h,
                x,
                h - 1 - y,
            )) ==> tally(mirrored_down(mask, w, h), w * h) == (h / 2) * w,
{
    let p = mirrored_across(mask, w, h);
    let q = mirrored_down(mask, w, h);
    let left = |i: int| i % w < w / 2;
    let upper = |i: int| i / w < h / 2;
    lemma_tally_bounds(p, w * h);
    lemma_tally_bounds(q, w * h);
    lemma_left_half(w, h, w / 2);
    lemma_upper_half(w, h, h / 2);
    crate::counting::lemma_tally_implies(p, left, w * h);
    crate::counting::lemma_tally_implies(q, upper, w * h);
    if forall|x: int, y: int|
        0 <= x < w && 0 <= y < h ==> #[trigger] ink_at(mask, w, h, x, y) == ink_at(
            mask,
            w,
            h,
            w - 1 - x,
            y,
        ) {
        assert forall|i: int| 0 <= i < w * h implies #[trigger] p(i) == left(i) by {
            lemma_cell(w, h, i);
            assert(ink_at(mask, w, h, i % w, i / w) == ink_at(mask, w, h, w - 1 - i % w, i / w));
        }
        crate::counting::lemma_tally_same(p, left, w * h);
    }
    if forall|x: int, y: int|
        0 <= x < w && 0 <= y < h ==> #[trigger] ink_at(mask, w, h, x, y) == ink_at(
            mask,
            w,
            h,
            x,
            h - 1 - y,
        ) {
        assert forall|i: int| 0 <= i < w * h implies #[trigger] q(i) == upper(i) by {
            lemma_cell(w, h, i);
            assert(ink_at(mask, w, h, i % w, i / w) == ink_at(mask, w, h, i % w, h - 1 - i / w));
        }
        crate::counting::lemma_tally_same(q, upper, w * h);
    }
}

/// As many cells stand left of column `c` as there are rows times `c`.
proof fn lemma_left_half(w: int, h: int, c: int)
    requires
        0 < w,
        0 <= h,
        0 <= c <= w,
    ensures
        tally(|i: int| i % w < c, w * h) == h * c,
    decreases h,
{
    let p = |i: int| i % w < c;
    if h == 0 {
        assert(w * 0 == 0 && 0 * c == 0) by (nonlinear_arith);
    } else {
        lemma_left_half(w, h - 1, c);
        lemma_row_tally(p, w, h - 1, w, c, true);
        assert(w * h == w * (h - 1) + w) by (nonlinear_arith);
        assert(h * c == (h - 1) * c + c) by (nonlinear_arith);
    }
}

/// As many cells stand above row `c` as there are columns times `c`.
proof fn lemma_upper_half(w: int, h: int, c: int)
    requires
        0 < w,
        0 <= h,
        0 <= c <= h,
    ensures
        tally(|i: int| i / w < c, w * h) == c * w,
    decreases h,
{
    let p = |i: int| i / w < c;
    if h == 0 {
        assert(w * 0 == 0 && 0 * w == 0) by (nonlinear_arith);
    } else {
        assert(w * h == w * (h - 1) + w) by (nonlinear_arith);
        if c == h {
            lemma_upper_half(w, h - 1, h - 1);
            let before = |i: int| i / w < h - 1;
            assert forall|i: int| 0 <= i < w * (h - 1) implies #[trigger] p(i) == before(i) by {
                lemma_cell(w, h - 1, i);
            }
            crate::counting::lemma_tally_same(p, before, w * (h - 1));
            lemma_row_tally(p, w, h - 1, w, w, false);
            assert(c * w == (h - 1) * w + w) by (nonlinear_arith)
                requires
                    c == h,
            ;
        } else {
            lemma_upper_half(w, h - 1, c);
            lemma_row_tally(p, w, h - 1, w, 0, false);
        }
    }
}

/// In row `y`, of the first `m` cells those left of `c` are tallied, or all, or none.
proof fn lemma_row_tally(p: spec_fn(int) -> bool, w: int, y: int, m: int, c: int, by_column: bool)
    requires
        0 < w,
        0 <= y,
        0 <= m <= w,
        0 <= c <= w,
        by_column ==> p == (|i: int| i % w < c),
        !by_column && c == w ==> forall|i: int| i / w == y ==> #[trigger] p(i),
        !by_column && c != w ==> c == 0 && forall|i: int| i / w == y ==> !#[trigger] p(i),
    ensures
        tally(p, w * y + m) == tally(p, w * y) + (if m < c {
            m
        } else {
            c
        }),
    decreases m,
{
    assert(0 <= w * y) by (nonlinear_arith)
        requires
            0 < w,
            0 <= y,
    ;
    if m > 0 {
        lemma_row_tally(p, w, y, m - 1, c, by_column);
        let i = w * y + m - 1;
        lemma_flat(w, y + 1, m - 1, y);
        assert(y * w == w * y) by (nonlinear_arith);
        assert(i / w == y && i % w == m - 1);
        assert(p(i) <==> m - 1 < c);
    }
}

/// A cell belongs to the quadrant of its half across and its half down; the middle column and
/// row belong to the right and the lower half. An ink cell is counted in its quadrant alone.
pub proof fn law_quadrant_cells(mask: Seq<bool>, w: int, h: int, x: int, y: int)
    requires
        0 <= x < w,
        0 <= y < h,
        mask.len() == w * h,
    ensures
        forall|top: bool, left: bool| #[trigger]
            quadrant_cell(w, h, top, left)(y * w + x) <==> top == (y < h / 2) && left == (x < w / 2),
        forall|top: bool, left: bool| #[trigger]
            quadrant_ink(mask, w, h, top, left)(y * w + x) <==> mask[y * w + x] && top == (y < h / 2)
                && left == (x < w / 2),
{
    lemma_flat(w, h, x, y);
}

/// The four quadrants share out the ink: together they have as much as the mask.
pub proof fn law_quadrant_ink(mask: Seq<bool>, w: int, h: int, n: int)
    requires
        0 <= n,
    ensures
        tally(quadrant_ink(mask, w, h, true, true), n) + tally(
            quadrant_ink(mask, w, h, true, false),
            n,
        ) + tally(quadrant_ink(mask, w, h, false, true), n) + tally(
            quadrant_ink(mask, w, h, false, false),
            n,
        ) == tally(|i: int| mask[i], n),
    decreases n,
{
    if n > 0 {
        law_quadrant_ink(mask, w, h, n - 1);
    }
}

} // verus!
