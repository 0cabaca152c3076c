//! Cutting the image of a word into characters at the valleys of its column ink.

use vstd::prelude::*;
use crate::counting::total;
use crate::glyph::INK_THRESHOLD;
use crate::raster::GrayImage;
use crate::sorting::{goes_before, is_stable_order, key_views, lex_le, stable_order};

verus! {

/// Columns to either side that the ink of a column is averaged over.
pub const SMOOTH_RADIUS: usize = 3;

/// How dark the pixel in column `x` is, as a function of the row; paper counts nothing.
pub open spec fn darkness(img: GrayImage, x: int) -> spec_fn(int) -> int {
    |y: int|
        if img.px(x, y) < INK_THRESHOLD {
            255 - img.px(x, y)
        } else {
            0
        }
}

/// The ink in a column.
pub open spec fn column_ink(img: GrayImage, x: int) -> int {
    total(darkness(img, x), img.height as int)
}

/// The first column of the average around column `i`.
pub open spec fn window_from(i: int) -> int {
    if i < SMOOTH_RADIUS {
        0
    } else {
        i - SMOOTH_RADIUS
    }
}

/// The end of the average around column `i` of `n`.
pub open spec fn window_to(i: int, n: int) -> int {
    if i + SMOOTH_RADIUS + 1 < n {
        i + SMOOTH_RADIUS + 1
    } else {
        n
    }
}

/// The sum of the values from `lo` to `hi`.
pub open spec fn range_sum(v: Seq<u64>, lo: int, hi: int) -> int
    decreases hi - lo,
{
    if hi <= lo {
        0
    } else {
        range_sum(v, lo, hi - 1) + v[hi - 1]
    }
}

/// The average of the values around `i`, times 420. That is a whole number, as averages are
/// over at most seven values.
pub open spec fn smoothed(v: Seq<u64>, i: int) -> int {
    let lo = window_from(i);
    let hi = window_to(i, v.len() as int);
    range_sum(v, lo, hi) * (420int / (hi - lo))
}

/// No neighbour of column `i` has less ink.
pub open spec fn is_valley(v: Seq<u64>, i: int) -> bool {
    &&& 0 < i < v.len() - 1
    &&& smoothed(v, i) <= smoothed(v, i - 1)
    &&& smoothed(v, i) <= smoothed(v, i + 1)
}

/// The valleys among the first `n` columns.
pub open spec fn valleys(v: Seq<u64>, n: int) -> Seq<usize>
    decreases n,
{
    if n <= 0 {
        Seq::empty()
    } else if is_valley(v, n - 1) {
        valleys(v, n - 1).push((n - 1) as usize)
    } else {
        valleys(v, n - 1)
    }
}

/// Columns of an image hold less ink than this.
pub const INK_LIMIT: u64 = 0x100_0000_0000;

fn ink_of_column(img: &GrayImage, x: u32) -> (s: u64)
    requires
        img.wf(),
        x < img.width,
    ensures
        s == column_ink(*img, x as int),
        s < INK_LIMIT,
{
    let mut s: u64 = 0;
    let mut y: u32 = 0;
    while y < img.height
        invariant
            img.wf(),
            x < img.width,
            y <= img.height,
            s == total(darkness(*img, x as int), y as int),
            s <= 255 * y,
        decreases img.height - y,
    {
        let p: u8 = img.get(x, y);
        if p < INK_THRESHOLD {
            s = s + (255 - p) as u64;
        }
        y = y + 1;
    }
    s
}

/// The ink of each column of an image.
pub open spec fn ink_profile(img: GrayImage) -> Seq<u64> {
    Seq::new(img.width as nat, |x: int| column_ink(img, x) as u64)
}

fn profile(img: &GrayImage) -> (v: Vec<u64>)
    requires
        img.wf(),
    ensures
        v@ == ink_profile(*img),
        forall|i: int| 0 <= i < v@.len() ==> #[trigger] v@[i] < INK_LIMIT,
{
    let mut v: Vec<u64> = Vec::new();
    let mut x: u32 = 0;
    while x < img.width
        invariant
            img.wf(),
            x <= img.width,
            v@.len() == x,
            forall|i: int|
                0 <= i < x ==> #[trigger] v@[i] == column_ink(*img, i) && v@[i] < INK_LIMIT,
        decreases img.width - x,
    {
        v.push(ink_of_column(img, x));
        x = x + 1;
    }
    assert(v@ =~= ink_profile(*img));
    v
}

fn smooth_at(v: &Vec<u64>, i: usize) -> (s: i64)
    requires
        i < v@.len(),
        forall|k: int| 0 <= k < v@.len() ==> #[trigger] v@[k] < INK_LIMIT,
    ensures
        s == smoothed(v@, i as int),
{
    let n: usize = v.len();
    let lo: usize = if i < SMOOTH_RADIUS {
        0
    } else {
        i - SMOOTH_RADIUS
    };
    let hi: usize = if n - i > SMOOTH_RADIUS + 1 {
        i + SMOOTH_RADIUS + 1
    } else {
        n
    };
    let mut sum: u64 = 0;
    let mut k: usize = lo;
    while k < hi
        invariant
            lo <= k <= hi <= v@.len(),
            hi - lo <= 7,
            forall|k: int| 0 <= k < v@.len() ==> #[trigger] v@[k] < INK_LIMIT,
            sum == range_sum(v@, lo as int, k as int),
            sum <= INK_LIMIT * (k - lo),
        decreases hi - k,
    {
        sum = sum + v[k];
        k = k + 1;
    }
    let width: u64 = (hi - lo) as u64;
    assert(0 <= sum * (420u64 / width) <= (7 * INK_LIMIT) * 420) by (nonlinear_arith)
        requires
            0 <= sum <= 7 * INK_LIMIT,
            0 <= 420u64 / width <= 420,
            width >= 1,
    ;
    (sum * (420 / width)) as i64
}

fn all_smooth(v: &Vec<u64>) -> (s: Vec<i64>)
    requires
        forall|k: int| 0 <= k < v@.len() ==> #[trigger] v@[k] < INK_LIMIT,
    ensures
        s@.len() == v@.len(),
        forall|i: int| 0 <= i < v@.len() ==> #[trigger] s@[i] == smoothed(v@, i),
{
    let n: usize = v.len();
    let mut s: Vec<i64> = Vec::new();
    for i in 0..n
        invariant
            n == v@.len(),
            forall|k: int| 0 <= k < v@.len() ==> #[trigger] v@[k] < INK_LIMIT,
            s@.len() == i,
            forall|k: int| 0 <= k < i ==> #[trigger] s@[k] == smoothed(v@, k),
    {
        s.push(smooth_at(v, i));
    }
    s
}

/// Position `i` of `n` equal parts of `width`, rounded to the nearest integer, halves up.
pub open spec fn uniform_cut(width: int, n: int, i: int) -> int {
    (2 * i * width + n) / (2 * n)
}

/// Cuts a width into `n` equal parts: the positions of all cuts, both ends included. For no
/// parts there is only the left end.
pub fn uniform_boundaries(width: u32, n: usize) -> (b: Vec<u32>)
    requires
        n < u32::MAX,
    ensures
        b@.len() == n + 1,
        n > 0 ==> forall|i: int|
            0 <= i <= n ==> #[trigger] b@[i] == uniform_cut(width as int, n as int, i),
        n == 0 ==> b@[0] == 0,
{
    let mut b: Vec<u32> = Vec::new();
    if n == 0 {
        b.push(0);
        return b;
    }
    let mut i: usize = 0;
    while i <= n
        invariant
            0 < n < u32::MAX,
            i <= n + 1,
            b@.len() == i,
            forall|k: int|
                0 <= k < i ==> #[trigger] b@[k] == uniform_cut(width as int, n as int, k),
        decreases n + 1 - i,
    {
        assert(0 <= i * width <= n * width && n * width <= 0xffff_ffff * 0xffff_ffff)
            by (nonlinear_arith)
            requires
                0 <= i <= n,
                n <= 0xffff_ffff,
                0 <= width <= 0xffff_ffff,
        ;
        let product: u128 = (i as u128) * (width as u128);
        let q: u128 = (2 * product + n as u128) / (2 * (n as u128));
        assert(2 * i * width == 2 * product) by (nonlinear_arith)
            requires
                product == i * width,
        ;
        assert(q <= width) by (nonlinear_arith)
            requires
                q == (2 * product + n) / (2 * n),
                product <= n * width,
                n > 0,
        ;
        b.push(q as u32);
        i = i + 1;
    }
    b
}

/// Uniform cuts begin at the left end, finish at the right one and never go back.
pub proof fn law_uniform_ascends(width: int, n: int, i: int)
    requires
        0 <= width,
        0 < n,
        0 <= i < n,
    ensures
        uniform_cut(width, n, 0) == 0,
        uniform_cut(width, n, n) == width,
        uniform_cut(width, n, i) <= uniform_cut(width, n, i + 1),
{
    assert((2 * 0 * width + n) / (2 * n) == 0) by (nonlinear_arith)
        requires
            n > 0,
    ;
    assert((2 * n * width + n) / (2 * n) == width) by {
        assert(2 * n * width + n == width * (2 * n) + n) by (nonlinear_arith);
        vstd::arithmetic::div_mod::lemma_fundamental_div_mod_converse(
            2 * n * width + n,
            2 * n,
            width,
            n,
        );
    }
    let a = 2 * i * width + n;
    let b = 2 * (i + 1) * width + n;
    assert(a <= b) by (nonlinear_arith)
        requires
            a == 2 * i * width + n,
            b == 2 * (i + 1) * width + n,
            width >= 0,
    ;
    vstd::arithmetic::div_mod::lemma_div_is_ordered(a, b, 2 * n);
}

/// How deep the valleys are, as sorting keys.
pub open spec fn depth_keys(v: Seq<u64>, at: Seq<usize>) -> Seq<Seq<i64>> {
    Seq::new(at.len(), |k: int| seq![smoothed(v, at[k] as int) as i64])
}

/// `b` cuts at the `need` deepest valleys and at both ends, in ascending order; of valleys
/// of one depth those to the left come first.
pub open spec fn is_valley_cut(v: Seq<u64>, need: int, order: Seq<usize>, b: Seq<u32>) -> bool {
    let at = valleys(v, v.len() as int);
    &&& is_stable_order(depth_keys(v, at), order)
    &&& b.len() == need + 2
    &&& b[0] == 0
    &&& b[need + 1] == v.len()
    &&& forall|i: int, j: int| 0 <= i < j < b.len() ==> #[trigger] b[i] < #[trigger] b[j]
    &&& forall|k: int|
        0 <= k < need ==> b.subrange(1, need + 1).contains(at[#[trigger] order[k] as int] as u32)
    &&& forall|m: int| 1 <= m <= need ==> is_first_valley(at, order, need, #[trigger] b[m])
}

/// `x` is one of the first `need` valleys in an order.
pub open spec fn is_first_valley(at: Seq<usize>, order: Seq<usize>, need: int, x: u32) -> bool {
    exists|k: int| 0 <= k < need && x == at[#[trigger] order[k] as int]
}

/// How a word image is cut into `n` characters: at the deepest valleys, or evenly where there
/// are too few of them.
pub open spec fn is_segmentation(img: GrayImage, n: int, b: Seq<u32>) -> bool {
    let v = ink_profile(img);
    if n <= 1 {
        b == seq![0u32, img.width]
    } else if valleys(v, v.len() as int).len() >= n - 1 {
        exists|order: Seq<usize>| #[trigger] is_valley_cut(v, n - 1, order, b)
    } else {
        b == Seq::new((n + 1) as nat, |i: int| uniform_cut(img.width as int, n, i) as u32)
    }
}

proof fn lemma_valleys(v: Seq<u64>, n: int)
    requires
        0 <= n <= v.len(),
        v.len() <= usize::MAX,
    ensures
        valleys(v, n).len() <= n,
        forall|i: int|
            0 <= i < valleys(v, n).len() ==> 0 < #[trigger] valleys(v, n)[i] < n && valleys(
                v,
                n,
            )[i] < v.len() - 1,
        forall|i: int, j: int|
            0 <= i < j < valleys(v, n).len() ==> #[trigger] valleys(v, n)[i] < #[trigger] valleys(
                v,
                n,
            )[j],
    decreases n,
{
    if n > 0 {
        lemma_valleys(v, n - 1);
    }
}

fn find_valleys(v: &Vec<u64>, s: &Vec<i64>) -> (at: Vec<usize>)
    requires
        s@.len() == v@.len(),
        forall|i: int| 0 <= i < v@.len() ==> #[trigger] s@[i] == smoothed(v@, i),
    ensures
        at@ == valleys(v@, v@.len() as int),
{
    let n: usize = v.len();
    let mut at: Vec<usize> = Vec::new();
    for i in 0..n
        invariant
            n == v@.len(),
            s@.len() == n,
            forall|i: int| 0 <= i < v@.len() ==> #[trigger] s@[i] == smoothed(v@, i),
            at@ == valleys(v@, i as int),
    {
        if i > 0 && i + 1 < n {
            assert(s@[i as int] == smoothed(v@, i as int));
            assert(s@[i - 1] == smoothed(v@, i - 1));
            assert(s@[i + 1] == smoothed(v@, i + 1));
            if s[i] <= s[i - 1] && s[i] <= s[i + 1] {
                at.push(i);
            }
        }
    }
    at
}

/// `x` is a chosen one of the first `n` positions.
pub open spec fn among_first(at: Seq<usize>, chosen: Seq<bool>, n: int, x: u32) -> bool {
    exists|j: int| 0 <= j < n && chosen[j] && x == #[trigger] at[j]
}

/// Puts positions in ascending order, between both ends.
fn cuts_between(at: &Vec<usize>, chosen: &Vec<bool>, width: u32) -> (b: Vec<u32>)
    requires
        at@.len() == chosen@.len(),
        forall|i: int| 0 <= i < at@.len() ==> 0 < #[trigger] at@[i] < width,
        forall|i: int, j: int| 0 <= i < j < at@.len() ==> #[trigger] at@[i] < #[trigger] at@[j],
        width > 0,
    ensures
        b@.len() >= 2,
        b@[0] == 0,
        b@.last() == width,
        forall|i: int, j: int| 0 <= i < j < b@.len() ==> #[trigger] b@[i] < #[trigger] b@[j],
        b@.len() == crate::counting::tally(|i: int| chosen@[i], at@.len() as int) + 2,
        forall|i: int|
            0 <= i < at@.len() && #[trigger] chosen@[i] ==> b@.subrange(
                1,
                b@.len() - 1,
            ).contains(at@[i] as u32),
        forall|k: int|
            1 <= k < b@.len() - 1 ==> among_first(
                at@,
                chosen@,
                at@.len() as int,
                #[trigger] b@[k],
            ),
{
    let n: usize = at.len();
    let mut b: Vec<u32> = Vec::new();
    b.push(0);
    let ghost p = |i: int| chosen@[i];
    for i in 0..n
        invariant
            n == at@.len(),
            n == chosen@.len(),
            p == (|i: int| chosen@[i]),
            forall|k: int| 0 <= k < at@.len() ==> 0 < #[trigger] at@[k] < width,
            forall|k: int, j: int|
                0 <= k < j < at@.len() ==> #[trigger] at@[k] < #[trigger] at@[j],
            b@.len() == crate::counting::tally(p, i as int) + 1,
            b@.len() >= 1,
            b@[0] == 0,
            forall|k: int| 1 <= k < b@.len() ==> among_first(at@, chosen@, i as int, #[trigger] b@[k]),
            forall|k: int, j: int| 0 <= k < j < b@.len() ==> #[trigger] b@[k] < #[trigger] b@[j],
            forall|k: int|
                0 <= k < i && #[trigger] chosen@[k] ==> exists|m: int|
                    1 <= m < b@.len() && #[trigger] b@[m] == at@[k],
    {
        let ghost before = b@;
        if chosen[i] {
            b.push(at[i] as u32);
            proof {
                let last = before.len() as int;
                assert(b@[last] == at@[i as int]);
                assert forall|k: int| 1 <= k < b@.len() implies among_first(
                    at@,
                    chosen@,
                    i + 1,
                    #[trigger] b@[k],
                ) by {
                    if k < last {
                        assert(b@[k] == before[k]);
                        let j = choose|j: int| 0 <= j < i && chosen@[j] && before[k] == #[trigger] at@[j];
                        assert(b@[k] == at@[j]);
                    } else {
                        assert(b@[k] == at@[i as int]);
                    }
                }
                assert forall|k: int, j: int| 0 <= k < j < b@.len() implies #[trigger] b@[k]
                    < #[trigger] b@[j] by {
                    if j == last {
                        if k == 0 {
                            assert(at@[i as int] > 0);
                        } else {
                            assert(b@[k] == before[k]);
                            let m = choose|m: int| 0 <= m < i && chosen@[m] && before[k] == #[trigger] at@[m];
                            assert(at@[m] < at@[i as int]);
                        }
                    } else {
                        assert(before[k] < before[j]);
                    }
                }
                assert forall|k: int| 0 <= k < i + 1 && #[trigger] chosen@[k] implies exists|m: int|
                    1 <= m < b@.len() && #[trigger] b@[m] == at@[k] by {
                    if k < i {
                        let m = choose|m: int| 1 <= m < before.len() && #[trigger] before[m] == at@[k];
                        assert(b@[m] == at@[k]);
                    } else {
                        assert(b@[last] == at@[k]);
                    }
                }
            }
        } else {
            proof {
                assert forall|k: int| 1 <= k < b@.len() implies among_first(
                    at@,
                    chosen@,
                    i + 1,
                    #[trigger] b@[k],
                ) by {
                    let j = choose|j: int| 0 <= j < i && chosen@[j] && b@[k] == #[trigger] at@[j];
                    assert(0 <= j < i + 1);
                }
            }
        }
    }
    let ghost before = b@;
    b.push(width);
    proof {
        let last = before.len() as int;
        assert forall|k: int, j: int| 0 <= k < j < b@.len() implies #[trigger] b@[k]
            < #[trigger] b@[j] by {
            if j == last {
                if k > 0 {
                    assert(b@[k] == before[k]);
                    let m = choose|m: int| 0 <= m < n && chosen@[m] && before[k] == #[trigger] at@[m];
                    assert(at@[m] < width);
                }
            } else {
                assert(before[k] < before[j]);
            }
        }
        assert forall|i: int| 0 <= i < at@.len() && #[trigger] chosen@[i] implies b@.subrange(
            1,
            b@.len() - 1,
        ).contains(at@[i] as u32) by {
            let m = choose|m: int| 1 <= m < before.len() && #[trigger] before[m] == at@[i];
            assert(b@.subrange(1, b@.len() - 1)[m - 1] == at@[i] as u32);
        }
        assert forall|k: int| 1 <= k < b@.len() - 1 implies among_first(
            at@,
            chosen@,
            at@.len() as int,
            #[trigger] b@[k],
        ) by {
            assert(b@[k] == before[k]);
        }
    }
    b
}

/// Marks the first `need` of an order.
fn mark_first(order: &Vec<usize>, need: usize) -> (chosen: Vec<bool>)
    requires
        crate::sorting::is_permutation(order@, order@.len() as int),
        need <= order@.len(),
    ensures
        chosen@.len() == order@.len(),
        crate::counting::tally(|i: int| chosen@[i], chosen@.len() as int) == need,
        forall|k: int| 0 <= k < need ==> chosen@[#[trigger] order@[k] as int],
        forall|i: int|
            0 <= i < order@.len() && #[trigger] chosen@[i] ==> exists|j: int|
                0 <= j < need && order@[j] == i,
{
    let n: usize = order.len();
    let mut chosen: Vec<bool> = vec![false; n];
    proof {
        crate::counting::lemma_tally_none(|i: int| chosen@[i], n as int);
    }
    for k in 0..need
        invariant
            n == order@.len(),
            need <= n,
            chosen@.len() == n,
            crate::sorting::is_permutation(order@, n as int),
            crate::counting::tally(|i: int| chosen@[i], n as int) == k,
            forall|i: int|
                0 <= i < n ==> (#[trigger] chosen@[i] <==> exists|j: int|
                    0 <= j < k && order@[j] == i),
    {
        let at: usize = order[k];
        let ghost before = chosen@;
        proof {
            if before[at as int] {
                let j = choose|j: int| 0 <= j < k && order@[j] == at;
                assert(order@[j] != order@[k as int]);
            }
        }
        chosen.set(at, true);
        proof {
            lemma_mark(before, at as int, n as int);
            assert(chosen@ =~= before.update(at as int, true));
            assert forall|i: int| 0 <= i < n implies (#[trigger] chosen@[i] <==> exists|j: int|
                0 <= j < k + 1 && order@[j] == i) by {
                if i == at {
                    assert(order@[k as int] == i);
                } else if before[i] {
                    let j = choose|j: int| 0 <= j < k && order@[j] == i;
                    assert(0 <= j < k + 1 && order@[j] == i);
                }
            }
        }
    }
    chosen
}

/// A mark that is set where none was adds one.
proof fn lemma_mark(v: Seq<bool>, at: int, n: int)
    requires
        0 <= at < v.len(),
        0 <= n <= v.len(),
        !v[at],
    ensures
        crate::counting::tally(|i: int| v.update(at, true)[i], n) == crate::counting::tally(
            |i: int| v[i],
            n,
        ) + (if at < n {
            1int
        } else {
            0
        }),
    decreases n,
{
    if n > 0 {
        lemma_mark(v, at, n - 1);
    }
}

fn valley_cut(v: &Vec<u64>, s: &Vec<i64>, at: &Vec<usize>, need: usize, width: u32) -> (b: Vec<u32>)
    requires
        width == v@.len(),
        s@.len() == v@.len(),
        forall|i: int| 0 <= i < v@.len() ==> #[trigger] s@[i] == smoothed(v@, i),
        at@ == valleys(v@, v@.len() as int),
        1 <= need <= at@.len(),
    ensures
        exists|order: Seq<usize>| #[trigger] is_valley_cut(v@, need as int, order, b@),
{
    let m: usize = at.len();
    proof {
        lemma_valleys(v@, v@.len() as int);
    }
    let mut keys: Vec<Vec<i64>> = Vec::new();
    for k in 0..m
        invariant
            m == at@.len(),
            s@.len() == v@.len(),
            forall|i: int| 0 <= i < v@.len() ==> #[trigger] s@[i] == smoothed(v@, i),
            forall|i: int| 0 <= i < m ==> #[trigger] at@[i] < v@.len(),
            keys@.len() == k,
            forall|j: int|
                0 <= j < k ==> (#[trigger] keys@[j])@ == seq![smoothed(v@, at@[j] as int) as i64],
    {
        assert(at@[k as int] < v@.len());
        let mut key: Vec<i64> = Vec::new();
        key.push(s[at[k]]);
        assert(s@[at@[k as int] as int] == smoothed(v@, at@[k as int] as int));
        assert(key@ =~= seq![smoothed(v@, at@[k as int] as int) as i64]);
        keys.push(key);
    }
    assert(key_views(keys@) =~= depth_keys(v@, at@));
    let order: Vec<usize> = stable_order(&keys);
    let chosen: Vec<bool> = mark_first(&order, need);
    let b: Vec<u32> = cuts_between(at, &chosen, width);
    proof {
        assert(b@.len() == need + 2);
        assert forall|k: int| 0 <= k < need implies b@.subrange(1, need + 1).contains(
            at@[#[trigger] order@[k] as int] as u32,
        ) by {
            assert(chosen@[order@[k] as int]);
        }
        assert forall|i: int| 1 <= i <= need implies is_first_valley(
            at@,
            order@,
            need as int,
            #[trigger] b@[i],
        ) by {
            let j = choose|j: int| 0 <= j < m && chosen@[j] && b@[i] == #[trigger] at@[j];
            let k = choose|k: int| 0 <= k < need && order@[k] == j;
            assert(b@[i] == at@[order@[k] as int]);
        }
        assert(is_valley_cut(v@, need as int, order@, b@));
    }
    b
}

/// Cuts the image of a word into `n_chars` characters.
pub fn segment_characters(img: &GrayImage, n_chars: usize) -> (b: Vec<u32>)
    requires
        img.wf(),
        n_chars < u32::MAX,
    ensures
        is_segmentation(*img, n_chars as int, b@),
{
    if n_chars <= 1 {
        let mut b: Vec<u32> = Vec::new();
        b.push(0);
        b.push(img.width);
        assert(b@ =~= seq![0u32, img.width]);
        return b;
    }
    let v: Vec<u64> = profile(img);
    let s: Vec<i64> = all_smooth(&v);
    let at: Vec<usize> = find_valleys(&v, &s);
    let need: usize = n_chars - 1;
    if at.len() >= need {
        valley_cut(&v, &s, &at, need, img.width)
    } else {
        let b: Vec<u32> = uniform_boundaries(img.width, n_chars);
        assert(b@ =~= Seq::new(
            (n_chars + 1) as nat,
            |i: int| uniform_cut(img.width as int, n_chars as int, i) as u32,
        ));
        b
    }
}

// --- What the cuts are ---

/// Ink and paper decide a column's ink. A pixel of value 200 or more adds nothing, a darker one
/// what it lacks to white, and only to the column that it stands in: where two images differ
/// in one pixel, the ink of its column differs by what that pixel adds, and no other does.
pub proof fn law_column_ink(a: GrayImage, b: GrayImage, x: int, y: int, c: int)
    requires
        a.wf(),
        b.wf(),
        a.width == b.width,
        a.height == b.height,
        0 <= x < a.width,
        0 <= y < a.height,
        0 <= c < a.width,
        forall|i: int, j: int|
            0 <= i < a.width && 0 <= j < a.height && !(i == x && j == y) ==> #[trigger] a.px(i, j)
                == b.px(i, j),
    ensures
        c != x ==> ink_profile(b)[c] == ink_profile(a)[c],
        c == x ==> ink_profile(b)[c] - ink_profile(a)[c] == (if b.px(x, y) < 200 {
            255 - b.px(x, y)
        } else {
            0
        }) - (if a.px(x, y) < 200 {
            255 - a.px(x, y)
        } else {
            0
        }),
{
    let h = a.height as int;
    let f = darkness(a, c);
    let g = darkness(b, c);
    lemma_column_ink(a, c);
    lemma_column_ink(b, c);
    if c == x {
        assert forall|j: int| 0 <= j < h && j != y implies #[trigger] f(j) == g(j) by {
            assert(a.px(c, j) == b.px(c, j));
        }
        crate::counting::lemma_total_change(f, g, y, h);
    } else {
        assert forall|j: int| 0 <= j < h implies #[trigger] f(j) == g(j) by {
            assert(a.px(c, j) == b.px(c, j));
        }
        crate::counting::lemma_total_same(f, g, h);
    }
}

/// A column of paper has no ink, and one of black pixels has 255 for each row.
pub proof fn law_plain_columns(img: GrayImage, c: int)
    requires
        img.wf(),
        0 <= c < img.width,
    ensures
        ink_profile(img).len() == img.width,
        (forall|y: int| 0 <= y < img.height ==> #[trigger] img.px(c, y) >= 200) ==> ink_profile(
            img,
        )[c] == 0,
        (forall|y: int| 0 <= y < img.height ==> #[trigger] img.px(c, y) == 0) ==> ink_profile(
            img,
        )[c] == 255 * img.height,
{
    let h = img.height as int;
    let f = darkness(img, c);
    lemma_column_ink(img, c);
    if forall|y: int| 0 <= y < h ==> #[trigger] img.px(c, y) >= 200 {
        assert forall|y: int| 0 <= y < h implies #[trigger] f(y) == 0 by {
            assert(img.px(c, y) >= 200);
        }
        crate::counting::lemma_total_none(f, h);
    }
    if forall|y: int| 0 <= y < h ==> #[trigger] img.px(c, y) == 0 {
        assert forall|y: int| 0 <= y < h implies #[trigger] f(y) == 255 by {
            assert(img.px(c, y) == 0);
        }
        lemma_black_column(f, h);
    }
}

proof fn lemma_black_column(f: spec_fn(int) -> int, h: int)
    requires
        0 <= h,
        forall|y: int| 0 <= y < h ==> #[trigger] f(y) == 255,
    ensures
        total(f, h) == 255 * h,
    decreases h,
{
    if h > 0 {
        lemma_black_column(f, h - 1);
    }
}

proof fn lemma_column_ink(img: GrayImage, c: int)
    requires
        img.wf(),
        0 <= c < img.width,
    ensures
        0 <= column_ink(img, c) < INK_LIMIT,
        ink_profile(img)[c] == column_ink(img, c),
{
    let f = darkness(img, c);
    crate::counting::lemma_total_bounds(f, img.height as int, 255);
}

/// The smoothed ink of a column is the mean of the ink of the columns at most three to either
/// side, as far as there are any, on a scale of 420 to one.
pub proof fn law_smoothed(v: Seq<u64>, i: int)
    requires
        0 <= i < v.len(),
    ensures
        ({
            let lo = if i >= 3 {
                i - 3
            } else {
                0
            };
            let hi = if i + 4 <= v.len() {
                i + 4
            } else {
                v.len() as int
            };
            smoothed(v, i) * (hi - lo) == 420 * total(|k: int| v[lo + k] as int, hi - lo)
        }),
{
    let lo = if i >= 3 {
        i - 3
    } else {
        0
    };
    let hi = if i + 4 <= v.len() {
        i + 4
    } else {
        v.len() as int
    };
    let width = hi - lo;
    lemma_range_sum(v, lo, width);
    let sum = range_sum(v, lo, hi);
    assert(1 <= width <= 7);
    let q = 420int / width;
    assert(q * width == 420) by {
        assert(420int / 1 == 420 && 420int / 2 == 210 && 420int / 3 == 140 && 420int / 4 == 105
            && 420int / 5 == 84 && 420int / 6 == 70 && 420int / 7 == 60);
        if width == 1 {
        } else if width == 2 {
        } else if width == 3 {
        } else if width == 4 {
        } else if width == 5 {
        } else if width == 6 {
        } else {
            assert(width == 7);
        }
    }
    assert(window_from(i) == lo && window_to(i, v.len() as int) == hi);
    assert((sum * q) * width == 420 * sum) by (nonlinear_arith)
        requires
            q * width == 420,
    ;
}

proof fn lemma_range_sum(v: Seq<u64>, lo: int, n: int)
    requires
        0 <= n,
    ensures
        range_sum(v, lo, lo + n) == total(|k: int| v[lo + k] as int, n),
    decreases n,
{
    if n > 0 {
        lemma_range_sum(v, lo, n - 1);
    }
}

proof fn lemma_smoothed_bounds(img: GrayImage, i: int)
    requires
        img.wf(),
        0 <= i < img.width,
    ensures
        0 <= smoothed(ink_profile(img), i) <= 7 * INK_LIMIT * 420,
{
    let v = ink_profile(img);
    let lo = window_from(i);
    let hi = window_to(i, v.len() as int);
    assert forall|k: int| lo <= k < hi implies #[trigger] v[k] < INK_LIMIT by {
        lemma_column_ink(img, k);
    }
    lemma_range_bounds(v, lo, hi);
    let sum = range_sum(v, lo, hi);
    let width = hi - lo;
    let q = 420int / width;
    assert(1 <= width <= 7);
    assert(0 <= q <= 420) by (nonlinear_arith)
        requires
            q == 420int / width,
            width >= 1,
    ;
    assert(0 <= sum * q <= 7 * INK_LIMIT * 420) by (nonlinear_arith)
        requires
            0 <= sum <= 7 * INK_LIMIT,
            0 <= q <= 420,
    ;
}

proof fn lemma_range_bounds(v: Seq<u64>, lo: int, hi: int)
    requires
        lo <= hi,
        forall|k: int| lo <= k < hi ==> #[trigger] v[k] < INK_LIMIT,
    ensures
        0 <= range_sum(v, lo, hi) <= INK_LIMIT * (hi - lo),
    decreases hi - lo,
{
    if lo < hi {
        lemma_range_bounds(v, lo, hi - 1);
    }
}

proof fn lemma_valleys_found(v: Seq<u64>, n: int, p: spec_fn(int) -> bool)
    requires
        0 <= n <= v.len(),
        v.len() <= usize::MAX,
        forall|x: int| 0 <= x < n ==> #[trigger] p(x) == is_valley(v, x),
    ensures
        valleys(v, n).len() == crate::counting::tally(p, n),
        forall|i: int|
            0 <= i < valleys(v, n).len() ==> is_valley(v, #[trigger] valleys(v, n)[i] as int),
        forall|x: int|
            0 <= x < n && #[trigger] is_valley(v, x) ==> exists|i: int|
                0 <= i < valleys(v, n).len() && valleys(v, n)[i] == x,
    decreases n,
{
    if n > 0 {
        lemma_valleys_found(v, n - 1, p);
        let before = valleys(v, n - 1);
        let s = valleys(v, n);
        assert forall|x: int| 0 <= x < n && #[trigger] is_valley(v, x) implies exists|i: int|
            0 <= i < s.len() && s[i] == x by {
            if x < n - 1 {
                let i = choose|i: int| 0 <= i < before.len() && before[i] == x;
                assert(s[i] == x);
            } else {
                assert(s[before.len() as int] == x);
            }
        }
        assert forall|i: int| 0 <= i < s.len() implies is_valley(v, #[trigger] s[i] as int) by {
            if i < before.len() {
                assert(s[i] == before[i]);
            }
        }
        assert(p(n - 1) == is_valley(v, n - 1));
    }
}

/// Where enough columns have, smoothed, no more ink than the column to their left and none
/// more than the column to their right, every inner cut is made at such a column. Of two such
/// columns the one with less ink is taken first, and of equal ones the left one: whoever comes
/// before a cut is a cut too. The cuts ascend from the left edge to the right one.
pub proof fn law_cuts_at_valleys(img: GrayImage, n: int, b: Seq<u32>, s: spec_fn(int) -> int)
    requires
        img.wf(),
        n >= 2,
        is_segmentation(img, n, b),
        forall|x: int| 0 <= x < img.width ==> #[trigger] s(x) == smoothed(ink_profile(img), x),
        crate::counting::tally(
            |x: int| 0 < x < img.width - 1 && s(x) <= s(x - 1) && s(x) <= s(x + 1),
            img.width as int,
        ) >= n - 1,
    ensures
        b.len() == n + 1,
        b[0] == 0,
        b[n] == img.width,
        forall|i: int, j: int| 0 <= i < j <= n ==> #[trigger] b[i] < #[trigger] b[j],
        forall|k: int|
            1 <= k < n ==> 0 < (#[trigger] b[k]) < img.width - 1 && s(b[k] as int) <= s(b[k] - 1)
                && s(b[k] as int) <= s(b[k] + 1),
        forall|k: int, x: int|
            1 <= k < n && 0 < x < img.width - 1 && #[trigger] s(x) <= s(x - 1) && s(x) <= s(x + 1)
                && (s(x) < s((#[trigger] b[k]) as int) || (s(x) == s(b[k] as int) && x < b[k]))
                ==> exists|m: int| 1 <= m < n && b[m] == x,
{
    let v = ink_profile(img);
    let w = img.width as int;
    let p = |x: int| 0 < x < img.width - 1 && s(x) <= s(x - 1) && s(x) <= s(x + 1);
    assert forall|x: int| 0 <= x < w implies #[trigger] p(x) == is_valley(v, x) by {
        if 0 < x < w - 1 {
            assert(s(x) == smoothed(v, x));
            assert(s(x - 1) == smoothed(v, x - 1));
            assert(s(x + 1) == smoothed(v, x + 1));
        }
    }
    lemma_valleys(v, w);
    lemma_valleys_found(v, w, p);
    let at = valleys(v, w);
    let order = choose|order: Seq<usize>| #[trigger] is_valley_cut(v, n - 1, order, b);
    let keys = depth_keys(v, at);
    assert forall|k: int| 1 <= k < n implies 0 < (#[trigger] b[k]) < img.width - 1 && s(
        b[k] as int,
    ) <= s(b[k] - 1) && s(b[k] as int) <= s(b[k] + 1) by {
        assert(is_first_valley(at, order, n - 1, b[k]));
        let j = choose|j: int| 0 <= j < n - 1 && b[k] == at[#[trigger] order[j] as int];
        assert(is_valley(v, at[order[j] as int] as int));
        assert(p(b[k] as int));
    }
    assert forall|k: int, x: int|
        1 <= k < n && 0 < x < img.width - 1 && #[trigger] s(x) <= s(x - 1) && s(x) <= s(x + 1) && (
        s(x) < s((#[trigger] b[k]) as int) || (s(x) == s(b[k] as int) && x < b[k])) implies exists|
        m: int,
    | 1 <= m < n && b[m] == x by {
        assert(p(x));
        assert(is_valley(v, x));
        let i = choose|i: int| 0 <= i < at.len() && at[i] == x;
        assert(is_first_valley(at, order, n - 1, b[k]));
        let j = choose|j: int| 0 <= j < n - 1 && b[k] == at[#[trigger] order[j] as int];
        let o = order[j] as int;
        assert(order.contains(i as usize));
        let a = choose|a: int| 0 <= a < order.len() && order[a] == i as usize;
        assert(s(b[k] as int) == smoothed(v, at[o] as int));
        assert(s(x) == smoothed(v, at[i] as int));
        lemma_smoothed_bounds(img, at[o] as int);
        lemma_smoothed_bounds(img, at[i] as int);
        assert(keys[i] == seq![smoothed(v, at[i] as int) as i64]);
        assert(keys[o] == seq![smoothed(v, at[o] as int) as i64]);
        if a >= n - 1 {
            assert(goes_before(keys, order[j] as int, order[a] as int));
            assert(goes_before(keys, o, i));
            reveal_with_fuel(lex_le, 2);
            assert(keys[o][0] <= keys[i][0]);
            if s(x) == s(b[k] as int) {
                assert(keys[o] == keys[i]);
                assert(o < i);
                assert(at[o] < at[i]);
            }
            assert(false);
        }
        assert(b.subrange(1, n).contains(at[order[a] as int] as u32));
        let m = choose|m: int| 0 <= m < n - 1 && b.subrange(1, n)[m] == at[i] as u32;
        assert(b[m + 1] == x);
    }
}

/// Where too few columns have, smoothed, no more ink than both their neighbours, the cuts are
/// those of equal parts: each is the column nearest to its share of the width, and of two that
/// are equally near the right one.
pub proof fn law_cuts_evenly(img: GrayImage, n: int, b: Seq<u32>, s: spec_fn(int) -> int)
    requires
        img.wf(),
        2 <= n < u32::MAX,
        is_segmentation(img, n, b),
        forall|x: int| 0 <= x < img.width ==> #[trigger] s(x) == smoothed(ink_profile(img), x),
        crate::counting::tally(
            |x: int| 0 < x < img.width - 1 && s(x) <= s(x - 1) && s(x) <= s(x + 1),
            img.width as int,
        ) < n - 1,
    ensures
        b.len() == n + 1,
        forall|i: int|
            0 <= i <= n ==> 2 * (i * img.width) - n < 2 * (n * #[trigger] b[i]) <= 2 * (i
                * img.width) + n,
{
    let v = ink_profile(img);
    let w = img.width as int;
    let p = |x: int| 0 < x < img.width - 1 && s(x) <= s(x - 1) && s(x) <= s(x + 1);
    assert forall|x: int| 0 <= x < w implies #[trigger] p(x) == is_valley(v, x) by {
        if 0 < x < w - 1 {
            assert(s(x) == smoothed(v, x));
            assert(s(x - 1) == smoothed(v, x - 1));
            assert(s(x + 1) == smoothed(v, x + 1));
        }
    }
    lemma_valleys_found(v, w, p);
    assert forall|i: int| 0 <= i <= n implies 2 * (i * img.width) - n < 2 * (n * #[trigger] b[i])
        <= 2 * (i * img.width) + n by {
        law_uniform_nearest(w, n, i);
    }
}

/// A cut into equal parts is nearest to its share of the width: it is off by half a column at
/// most, and a half is rounded up.
pub proof fn law_uniform_nearest(width: int, n: int, i: int)
    requires
        0 <= width,
        0 < n,
        0 <= i <= n,
    ensures
        2 * (i * width) - n < 2 * (n * uniform_cut(width, n, i)) <= 2 * (i * width) + n,
        0 <= uniform_cut(width, n, i) <= width,
{
    let c = uniform_cut(width, n, i);
    let a = 2 * i * width + n;
    vstd::arithmetic::div_mod::lemma_fundamental_div_mod(a, 2 * n);
    vstd::arithmetic::div_mod::lemma_mod_bound(a, 2 * n);
    assert((2 * n) * c == 2 * (n * c)) by (nonlinear_arith);
    assert(2 * i * width == 2 * (i * width)) by (nonlinear_arith);
    assert(0 <= i * width <= n * width) by (nonlinear_arith)
        requires
            0 <= i <= n,
            0 <= width,
    ;
    assert(c <= width) by (nonlinear_arith)
        requires
            2 * (n * c) <= 2 * (i * width) + n,
            i * width <= n * width,
            n > 0,
    ;
    assert(c >= 0) by (nonlinear_arith)
        requires
            2 * (n * c) > 2 * (i * width) - n,
            0 <= i * width,
            n > 0,
    ;
}

/// One character takes the whole width, from the left edge to the right one.
pub proof fn law_one_character(img: GrayImage, n: int, b: Seq<u32>)
    requires
        img.wf(),
        n <= 1,
        is_segmentation(img, n, b),
    ensures
        b.len() == 2,
        b[0] == 0,
        b[1] == img.width,
{
}

} // verus!
