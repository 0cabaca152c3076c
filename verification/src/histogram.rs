//! Histograms of byte values, percentiles, and Otsu's threshold.

use vstd::prelude::*;
use crate::counting::{tally, total, lemma_tally_bounds};

verus! {

/// Position `i` of `vals` holds `v`.
pub open spec fn has_value(vals: Seq<u8>, v: int) -> spec_fn(int) -> bool {
    |i: int| vals[i] == v
}

/// Position `i` of `vals` holds at most `v`.
pub open spec fn at_most(vals: Seq<u8>, v: int) -> spec_fn(int) -> bool {
    |i: int| vals[i] <= v
}

/// How many values are at most `v`.
pub open spec fn count_at_most(vals: Seq<u8>, v: int) -> int {
    tally(at_most(vals, v), vals.len() as int)
}

/// `hist` counts how often each byte value occurs in `vals`.
pub open spec fn is_histogram(hist: Seq<u32>, vals: Seq<u8>) -> bool {
    &&& hist.len() == 256
    &&& forall|v: int|
        0 <= v < 256 ==> #[trigger] hist[v] == tally(has_value(vals, v), vals.len() as int)
}

/// Entry `v` of a histogram as an integer.
pub open spec fn entry(hist: Seq<u32>) -> spec_fn(int) -> int {
    |v: int| hist[v] as int
}

/// Entry `v` of a histogram times `v`.
pub open spec fn weighted_entry(hist: Seq<u32>) -> spec_fn(int) -> int {
    |v: int| v * hist[v]
}

/// How many values of a histogram are at most `t`.
pub open spec fn weight(hist: Seq<u32>, t: int) -> int {
    total(entry(hist), t + 1)
}

/// The sum of the values of a histogram that are at most `t`.
pub open spec fn moment(hist: Seq<u32>, t: int) -> int {
    total(weighted_entry(hist), t + 1)
}

/// Counts how often each byte value occurs.
pub fn histogram(vals: &[u8]) -> (hist: Vec<u32>)
    requires
        vals@.len() <= u32::MAX,
    ensures
        is_histogram(hist@, vals@),
{
    let mut hist: Vec<u32> = vec![0u32; 256];
    let n: usize = vals.len();
    for i in 0..n
        invariant
            n == vals@.len(),
            n <= u32::MAX,
            hist@.len() == 256,
            forall|v: int|
                0 <= v < 256 ==> #[trigger] hist@[v] == tally(has_value(vals@, v), i as int),
    {
        let v: usize = vals[i] as usize;
        proof {
            lemma_tally_bounds(has_value(vals@, v as int), i as int);
        }
        let c: u32 = hist[v];
        hist.set(v, c + 1);
    }
    hist
}

/// Counting up to `v` is counting up to `v - 1` and adding the occurrences of `v`.
pub proof fn lemma_count_step(vals: Seq<u8>, v: int, n: int)
    requires
        0 <= n <= vals.len(),
    ensures
        tally(at_most(vals, v), n) == tally(at_most(vals, v - 1), n) + tally(
            has_value(vals, v),
            n,
        ),
    decreases n,
{
    if n > 0 {
        lemma_count_step(vals, v, n - 1);
    }
}

/// The cumulated histogram counts the values up to `t`.
pub proof fn lemma_weight(hist: Seq<u32>, vals: Seq<u8>, t: int)
    requires
        is_histogram(hist, vals),
        -1 <= t < 256,
    ensures
        weight(hist, t) == count_at_most(vals, t),
    decreases t + 1,
{
    if t == -1 {
        crate::counting::lemma_tally_none(at_most(vals, -1), vals.len() as int);
    } else {
        lemma_weight(hist, vals, t - 1);
        lemma_count_step(vals, t, vals.len() as int);
    }
}

/// All values are at most 255.
pub proof fn lemma_weight_all(hist: Seq<u32>, vals: Seq<u8>)
    requires
        is_histogram(hist, vals),
    ensures
        weight(hist, 255) == vals.len(),
{
    lemma_weight(hist, vals, 255);
    lemma_all_below(vals, vals.len() as int);
}

proof fn lemma_all_below(vals: Seq<u8>, n: int)
    requires
        0 <= n <= vals.len(),
    ensures
        tally(at_most(vals, 255), n) == n,
    decreases n,
{
    if n > 0 {
        lemma_all_below(vals, n - 1);
    }
}

// --- Percentiles ---

/// `v` is the least value that at least `target` of the values do not exceed.
pub open spec fn is_quantile(vals: Seq<u8>, target: int, v: int) -> bool {
    &&& 0 <= v < 256
    &&& count_at_most(vals, v) >= target
    &&& forall|u: int| 0 <= u < v ==> #[trigger] count_at_most(vals, u) < target
}

/// The values at the first and the ninety-ninth percentile, if the first is smaller.
pub open spec fn is_stretch(vals: Seq<u8>, r: Option<(u8, u8)>) -> bool {
    let n = vals.len() as int;
    match r {
        Some((p1, p99)) => {
            &&& n > 0
            &&& p1 < p99
            &&& is_quantile(vals, n / 100, p1 as int)
            &&& is_quantile(vals, n * 99 / 100, p99 as int)
        },
        None => n == 0 || exists|p1: int, p99: int|
            p1 >= p99 && #[trigger] is_quantile(vals, n / 100, p1) && #[trigger] is_quantile(
                vals,
                n * 99 / 100,
                p99,
            ),
    }
}

/// The range of luminance that a contrast stretch spreads over all byte values: the values
/// at the first and the ninety-ninth percentile, or nothing where these do not differ.
pub fn contrast_percentiles(luma: &[u8]) -> (r: Option<(u8, u8)>)
    requires
        luma@.len() * 99 <= u32::MAX,
    ensures
        is_stretch(luma@, r),
{
    if luma.len() == 0 {
        return None;
    }
    let hist: Vec<u32> = histogram(luma);
    let n: u32 = luma.len() as u32;
    let p1_target: u32 = n / 100;
    let p99_target: u32 = n * 99 / 100;
    let mut cum: u32 = 0;
    let mut p1: u8 = 0;
    let mut found_p1: bool = false;
    let mut val: usize = 0;
    proof {
        lemma_weight_all(hist@, luma@);
    }
    while val < 256
        invariant
            hist@.len() == 256,
            is_histogram(hist@, luma@),
            n == luma@.len(),
            n > 0,
            n * 99 <= u32::MAX,
            p1_target == n / 100,
            p99_target == n * 99 / 100,
            val <= 256,
            cum == weight(hist@, val - 1),
            cum <= n,
            weight(hist@, 255) == n,
            found_p1 ==> is_quantile(luma@, p1_target as int, p1 as int),
            found_p1 ==> p1 < val,
            !found_p1 ==> forall|u: int|
                0 <= u < val ==> #[trigger] count_at_most(luma@, u) < p1_target,
            forall|u: int| 0 <= u < val ==> #[trigger] count_at_most(luma@, u) < p99_target,
        decreases 256 - val,
    {
        proof {
            lemma_weight(hist@, luma@, val as int);
            lemma_tally_bounds(at_most(luma@, val as int), n as int);
        }
        cum = cum + hist[val];
        if !found_p1 && cum >= p1_target {
            p1 = val as u8;
            found_p1 = true;
        }
        if cum >= p99_target {
            let p99: u8 = val as u8;
            assert(is_quantile(luma@, p99_target as int, p99 as int));
            assert(found_p1) by {
                assert(p1_target <= p99_target);
            }
            return if p1 < p99 {
                Some((p1, p99))
            } else {
                assert(p1 >= p99 && is_quantile(luma@, p1_target as int, p1 as int));
                None
            };
        }
        val = val + 1;
    }
    proof {
        lemma_weight(hist@, luma@, 255);
        assert(count_at_most(luma@, 255) < p99_target);
        assert(false);
    }
    None
}

// --- Otsu's threshold ---

/// `t` splits the values of a histogram into two classes, neither of them empty.
pub open spec fn is_split(hist: Seq<u32>, t: int) -> bool {
    0 <= t < 256 && 0 < weight(hist, t) < weight(hist, 255)
}

/// The product of the sizes of the two classes.
pub open spec fn class_product(hist: Seq<u32>, t: int) -> int {
    weight(hist, t) * (weight(hist, 255) - weight(hist, t))
}

/// The difference of the class means, times the product of the class sizes.
pub open spec fn mean_gap(hist: Seq<u32>, t: int) -> int {
    (moment(hist, 255) - moment(hist, t)) * weight(hist, t) - moment(hist, t) * (weight(hist, 255)
        - weight(hist, t))
}

/// The between-class variance at `t` exceeds that at `u`. The variance at a split is
/// the square of `mean_gap` over `class_product`, up to a common factor.
pub open spec fn separates_better(hist: Seq<u32>, t: int, u: int) -> bool {
    mean_gap(hist, t) * mean_gap(hist, t) * class_product(hist, u) > mean_gap(hist, u) * mean_gap(
        hist,
        u,
    ) * class_product(hist, t)
}

/// `thr` is the first split with the largest between-class variance; 128 if there is no split.
pub open spec fn is_otsu(hist: Seq<u32>, thr: int) -> bool {
    if exists|t: int| is_split(hist, t) {
        &&& is_split(hist, thr)
        &&& forall|u: int| #[trigger] is_split(hist, u) ==> !separates_better(hist, u, thr)
        &&& forall|u: int| #[trigger] is_split(hist, u) && u < thr ==> separates_better(
            hist,
            thr,
            u,
        )
    } else {
        thr == 128
    }
}

/// A nonnegative fraction, as whole part and proper rest.
#[derive(Clone, Copy, Debug)]
struct Mixed {
    whole: u128,
    rest: u128,
    den: u128,
}

impl Mixed {
    spec fn is_square_over(self, d: int, p: int) -> bool {
        self.den == p && d * d == p * self.whole + self.rest && 0 <= self.rest < p
    }
}

/// The square of `d` over `p`, for `d` below `256 * p`.
fn square_over(d: u128, p: u128) -> (m: Mixed)
    requires
        0 < p <= 0x4000_0000_0000_0000,
        d < 256 * p,
    ensures
        m.is_square_over(d as int, p as int),
        m.rest < p,
{
    let q: u128 = d / p;
    let r: u128 = d % p;
    assert(d == q * p + r && r < p && q < 256) by (nonlinear_arith)
        requires
            q == d / p,
            r == d % p,
            0 < p,
            d < 256 * p,
    ;
    assert(0 <= r * r < 0x4000_0000_0000_0000 * 0x4000_0000_0000_0000) by (nonlinear_arith)
        requires
            0 <= r < 0x4000_0000_0000_0000,
    ;
    assert(0 <= q * q <= 0x10000) by (nonlinear_arith)
        requires
            0 <= q < 256,
    ;
    let qq: u128 = q * q;
    assert(0 <= qq * p <= 0x10000 * 0x4000_0000_0000_0000) by (nonlinear_arith)
        requires
            0 <= qq <= 0x10000,
            0 < p <= 0x4000_0000_0000_0000,
    ;
    assert(0 <= q * r <= 256 * 0x4000_0000_0000_0000) by (nonlinear_arith)
        requires
            0 <= q < 256,
            0 <= r < 0x4000_0000_0000_0000,
    ;
    let rr: u128 = r * r;
    let k: u128 = rr / p;
    let s: u128 = rr % p;
    assert(rr == k * p + s && s < p && k <= rr) by (nonlinear_arith)
        requires
            k == rr / p,
            s == rr % p,
            0 < p,
    ;
    let whole: u128 = qq * p + 2 * (q * r) + k;
    assert(d * d == p * whole + s) by (nonlinear_arith)
        requires
            d == q * p + r,
            whole == (q * q) * p + 2 * (q * r) + k,
            r * r == k * p + s,
    ;
    Mixed { whole, rest: s, den: p }
}

/// Whether the first fraction is larger.
fn exceeds(a: Mixed, b: Mixed, Ghost(d1): Ghost<int>, Ghost(d2): Ghost<int>) -> (r: bool)
    requires
        0 < a.den <= 0x4000_0000_0000_0000,
        0 < b.den <= 0x4000_0000_0000_0000,
        a.is_square_over(d1, a.den as int),
        b.is_square_over(d2, b.den as int),
    ensures
        r == (d1 * d1 * b.den > d2 * d2 * a.den),
{
    let ghost p1 = a.den as int;
    let ghost p2 = b.den as int;
    let ghost s1 = a.rest as int;
    let ghost s2 = b.rest as int;
    let ghost k1 = a.whole as int;
    let ghost k2 = b.whole as int;
    assert(0 <= s1 * p2 <= 0x4000_0000_0000_0000 * 0x4000_0000_0000_0000) by (nonlinear_arith)
        requires
            0 <= s1 <= 0x4000_0000_0000_0000,
            0 <= p2 <= 0x4000_0000_0000_0000,
    ;
    assert(0 <= s2 * p1 <= 0x4000_0000_0000_0000 * 0x4000_0000_0000_0000) by (nonlinear_arith)
        requires
            0 <= s2 <= 0x4000_0000_0000_0000,
            0 <= p1 <= 0x4000_0000_0000_0000,
    ;
    assert(s2 * p1 < p1 * p2 && s1 * p2 < p1 * p2) by (nonlinear_arith)
        requires
            0 <= s1 < p1,
            0 <= s2 < p2,
    ;
    assert((p1 * k1 + s1) * p2 == (p1 * p2) * k1 + s1 * p2) by (nonlinear_arith);
    assert((p2 * k2 + s2) * p1 == (p1 * p2) * k2 + s2 * p1) by (nonlinear_arith);
    if a.whole > b.whole {
        assert((p1 * p2) * k1 >= (p1 * p2) * k2 + p1 * p2) by (nonlinear_arith)
            requires
                k1 >= k2 + 1,
                p1 > 0,
                p2 > 0,
        ;
        true
    } else if a.whole < b.whole {
        assert((p1 * p2) * k2 >= (p1 * p2) * k1 + p1 * p2) by (nonlinear_arith)
            requires
                k2 >= k1 + 1,
                p1 > 0,
                p2 > 0,
        ;
        false
    } else {
        a.rest * b.den > b.rest * a.den
    }
}

/// Cumulated entries and moments grow, and stay within their bounds.
proof fn lemma_cumulated(hist: Seq<u32>, t: int)
    requires
        hist.len() == 256,
        -1 <= t < 256,
    ensures
        0 <= weight(hist, t) <= weight(hist, 255),
        0 <= moment(hist, t) <= moment(hist, 255),
        moment(hist, t) <= t * weight(hist, t) || t == -1,
        moment(hist, 255) - moment(hist, t) >= (t + 1) * (weight(hist, 255) - weight(hist, t)),
        moment(hist, 255) <= 255 * weight(hist, 255),
{
    lemma_low_class(hist, t);
    lemma_low_class(hist, 255);
    lemma_high_class(hist, t, 255);
}

proof fn lemma_low_class(hist: Seq<u32>, t: int)
    requires
        hist.len() == 256,
        -1 <= t < 256,
    ensures
        0 <= weight(hist, t),
        0 <= moment(hist, t),
        t >= 0 ==> moment(hist, t) <= t * weight(hist, t),
    decreases t + 1,
{
    if t >= 0 {
        lemma_low_class(hist, t - 1);
        let c = hist[t] as int;
        let w0 = weight(hist, t - 1);
        assert(weight(hist, t) == w0 + c);
        assert(moment(hist, t) == moment(hist, t - 1) + t * c);
        assert(0 <= t * c) by (nonlinear_arith)
            requires
                0 <= t,
                0 <= c,
        ;
        assert(t * (w0 + c) == t * w0 + t * c) by (nonlinear_arith);
        assert((t - 1) * w0 <= t * w0) by (nonlinear_arith)
            requires
                0 <= w0,
        ;
        if t == 0 {
            assert(0 * (w0 + c) == 0) by (nonlinear_arith);
        }
    }
}

proof fn lemma_high_class(hist: Seq<u32>, t: int, u: int)
    requires
        hist.len() == 256,
        -1 <= t <= u < 256,
    ensures
        weight(hist, t) <= weight(hist, u),
        moment(hist, t) <= moment(hist, u),
        moment(hist, u) - moment(hist, t) >= (t + 1) * (weight(hist, u) - weight(hist, t)),
    decreases u - t,
{
    if t < u {
        lemma_high_class(hist, t, u - 1);
        let c = hist[u] as int;
        let dw = weight(hist, u - 1) - weight(hist, t);
        assert(weight(hist, u) == weight(hist, u - 1) + c);
        assert(moment(hist, u) == moment(hist, u - 1) + u * c);
        assert((t + 1) * (dw + c) == (t + 1) * dw + (t + 1) * c) by (nonlinear_arith);
        assert((t + 1) * c <= u * c && 0 <= u * c) by (nonlinear_arith)
            requires
                0 <= t + 1 <= u,
                0 <= c,
        ;
    } else {
        assert((t + 1) * 0 == 0) by (nonlinear_arith);
    }
}

/// At a split the upper class has the larger mean, so the between-class variance is not zero.
pub proof fn lemma_split_separates(hist: Seq<u32>, t: int)
    requires
        hist.len() == 256,
        is_split(hist, t),
    ensures
        mean_gap(hist, t) >= class_product(hist, t) > 0,
        mean_gap(hist, t) <= 255 * class_product(hist, t),
{
    lemma_cumulated(hist, t);
    let w = weight(hist, t);
    let v = weight(hist, 255) - w;
    let m = moment(hist, t);
    let up = moment(hist, 255) - m;
    assert(w * v > 0) by (nonlinear_arith)
        requires
            w > 0,
            v > 0,
    ;
    assert(up * w >= ((t + 1) * v) * w) by (nonlinear_arith)
        requires
            up >= (t + 1) * v,
            w > 0,
    ;
    assert(m * v <= (t * w) * v) by (nonlinear_arith)
        requires
            m <= t * w,
            v > 0,
    ;
    assert(((t + 1) * v) * w == (t * w) * v + w * v) by (nonlinear_arith);
    lemma_upper_moment(hist, t, 255);
    assert(up * w <= (255 * v) * w) by (nonlinear_arith)
        requires
            up <= 255 * v,
            w > 0,
    ;
    assert((255 * v) * w == 255 * (w * v)) by (nonlinear_arith);
    assert(m * v >= 0) by (nonlinear_arith)
        requires
            m >= 0,
            v > 0,
    ;
}

proof fn lemma_upper_moment(hist: Seq<u32>, t: int, u: int)
    requires
        hist.len() == 256,
        -1 <= t <= u < 256,
    ensures
        moment(hist, u) - moment(hist, t) <= 255 * (weight(hist, u) - weight(hist, t)),
    decreases u - t,
{
    if t < u {
        lemma_upper_moment(hist, t, u - 1);
        let c = hist[u] as int;
        assert(u * c <= 255 * c) by (nonlinear_arith)
            requires
                u <= 255,
                0 <= c,
        ;
    }
}

/// `separates_better` is transitive in the way a maximum needs.
proof fn lemma_better_chain(hist: Seq<u32>, t: int, b: int, u: int)
    requires
        hist.len() == 256,
        is_split(hist, t),
        is_split(hist, b),
        is_split(hist, u),
        separates_better(hist, t, b),
        !separates_better(hist, u, b),
    ensures
        separates_better(hist, t, u),
{
    lemma_split_separates(hist, t);
    lemma_split_separates(hist, b);
    lemma_split_separates(hist, u);
    let (x, p) = (mean_gap(hist, t) * mean_gap(hist, t), class_product(hist, t));
    let (y, q) = (mean_gap(hist, b) * mean_gap(hist, b), class_product(hist, b));
    let (z, r) = (mean_gap(hist, u) * mean_gap(hist, u), class_product(hist, u));
    // x/p > y/q and z/r <= y/q give x/p > z/r
    assert((x * q) * r > (y * p) * r) by (nonlinear_arith)
        requires
            x * q > y * p,
            r > 0,
    ;
    assert((z * q) * p <= (y * r) * p) by (nonlinear_arith)
        requires
            z * q <= y * r,
            p > 0,
    ;
    assert(x * r > z * p) by (nonlinear_arith)
        requires
            (x * q) * r > (y * p) * r,
            (z * q) * p <= (y * r) * p,
            q > 0,
    ;
}

/// Otsu's threshold of a histogram of `total_len` values.
pub fn otsu_from_hist(hist: &Vec<u32>, total_len: usize) -> (thr: u8)
    requires
        hist@.len() == 256,
        weight(hist@, 255) == total_len,
        total_len <= u32::MAX,
    ensures
        is_otsu(hist@, thr as int),
{
    let mut sum_total: u128 = 0;
    let mut i: usize = 0;
    while i < 256
        invariant
            hist@.len() == 256,
            i <= 256,
            sum_total == moment(hist@, i - 1),
            weight(hist@, 255) <= u32::MAX,
        decreases 256 - i,
    {
        proof {
            lemma_cumulated(hist@, i as int);
            lemma_cumulated(hist@, i - 1);
            let c = hist@[i as int] as int;
            assert(0 <= i * c <= 255 * 0xffff_ffff) by (nonlinear_arith)
                requires
                    0 <= i <= 255,
                    0 <= c <= 0xffff_ffff,
            ;
        }
        sum_total = sum_total + i as u128 * hist[i] as u128;
        i = i + 1;
    }
    let n: u128 = total_len as u128;
    let mut w_bg: u128 = 0;
    let mut sum_bg: u128 = 0;
    let mut best: Option<Mixed> = None;
    let mut thr: u8 = 128;
    let mut t: usize = 0;
    while t < 256
        invariant
            hist@.len() == 256,
            t <= 256,
            n == total_len,
            weight(hist@, 255) == n,
            n <= u32::MAX,
            sum_total == moment(hist@, 255),
            w_bg == weight(hist@, t - 1),
            sum_bg == moment(hist@, t - 1),
            best is None ==> thr == 128 && forall|u: int|
                #[trigger] is_split(hist@, u) ==> u >= t,
            best is Some ==> {
                &&& thr < t
                &&& is_split(hist@, thr as int)
                &&& 0 < best->0.den <= 0x4000_0000_0000_0000
                &&& best->0.is_square_over(
                    mean_gap(hist@, thr as int),
                    class_product(hist@, thr as int),
                )
                &&& forall|u: int| #[trigger]
                    is_split(hist@, u) && u < t ==> !separates_better(hist@, u, thr as int)
                &&& forall|u: int| #[trigger]
                    is_split(hist@, u) && u < thr ==> separates_better(hist@, thr as int, u)
            },
        decreases 256 - t,
    {
        proof {
            lemma_cumulated(hist@, t as int);
            lemma_cumulated(hist@, t - 1);
            let c = hist@[t as int] as int;
            assert(0 <= t * c <= 255 * 0xffff_ffff) by (nonlinear_arith)
                requires
                    0 <= t <= 255,
                    0 <= c <= 0xffff_ffff,
            ;
        }
        w_bg = w_bg + hist[t] as u128;
        sum_bg = sum_bg + t as u128 * hist[t] as u128;
        if 0 < w_bg && w_bg < n {
            let ghost ti = t as int;
            assert(is_split(hist@, ti));
            let w_fg: u128 = n - w_bg;
            proof {
                lemma_split_separates(hist@, ti);
                assert(w_bg * w_fg <= 0x4000_0000_0000_0000) by (nonlinear_arith)
                    requires
                        w_bg + w_fg <= 0xffff_ffff,
                        w_bg >= 0,
                        w_fg >= 0,
                ;
                assert(0 <= (sum_total - sum_bg) * w_bg <= (255 * 0xffff_ffff) * 0xffff_ffff)
                    by (nonlinear_arith)
                    requires
                        0 <= sum_total - sum_bg <= 255 * 0xffff_ffff,
                        0 <= w_bg <= 0xffff_ffff,
                ;
                assert(0 <= sum_bg * w_fg <= (255 * 0xffff_ffff) * 0xffff_ffff)
                    by (nonlinear_arith)
                    requires
                        0 <= sum_bg <= 255 * 0xffff_ffff,
                        0 <= w_fg <= 0xffff_ffff,
                ;
            }
            let p: u128 = w_bg * w_fg;
            let d: u128 = (sum_total - sum_bg) * w_bg - sum_bg * w_fg;
            assert(d == mean_gap(hist@, ti) && p == class_product(hist@, ti));
            let var: Mixed = square_over(d, p);
            match best {
                None => {
                    best = Some(var);
                    thr = t as u8;
                },
                Some(b) => {
                    let better: bool = exceeds(
                        var,
                        b,
                        Ghost(mean_gap(hist@, ti)),
                        Ghost(mean_gap(hist@, thr as int)),
                    );
                    assert(better == separates_better(hist@, ti, thr as int));
                    if better {
                        proof {
                            let b0 = thr as int;
                            assert forall|u: int| #[trigger]
                                is_split(hist@, u) && u < ti implies separates_better(
                                hist@,
                                ti,
                                u,
                            ) by {
                                lemma_better_chain(hist@, ti, b0, u);
                            }
                            assert forall|u: int| #[trigger]
                                is_split(hist@, u) && u < ti + 1 implies !separates_better(
                                hist@,
                                u,
                                ti,
                            ) by {}
                        }
                        best = Some(var);
                        thr = t as u8;
                    }
                },
            }
        }
        t = t + 1;
    }
    proof {
        if best is None {
            assert(forall|u: int| !#[trigger] is_split(hist@, u));
        }
    }
    thr
}

/// Otsu's threshold of a list of values: the first one that maximises the between-class
/// variance, and 128 where all values are equal.
pub fn otsu_threshold(vals: &[u8]) -> (thr: u8)
    requires
        vals@.len() <= u32::MAX,
    ensures
        forall|hist: Seq<u32>| #[trigger] is_histogram(hist, vals@) ==> is_otsu(hist, thr as int),
{
    let hist: Vec<u32> = histogram(vals);
    proof {
        lemma_weight_all(hist@, vals@);
    }
    let thr: u8 = otsu_from_hist(&hist, vals.len());
    proof {
        assert forall|other: Seq<u32>| #[trigger] is_histogram(other, vals@) implies is_otsu(
            other,
            thr as int,
        ) by {
            assert(other =~= hist@);
        }
    }
    thr
}

/// Where a split exists, the threshold is one: some value is at most the threshold and
/// some value lies above it.
pub proof fn law_otsu_splits(hist: Seq<u32>, thr: int, t: int)
    requires
        hist.len() == 256,
        is_otsu(hist, thr),
        is_split(hist, t),
    ensures
        is_split(hist, thr),
        0 <= thr < 255,
{
}

// --- What the numbers are ---

/// One more value adds one to its own entry of the histogram and to no other; no values leave
/// all entries at zero.
pub proof fn law_histogram_grows(before: Seq<u32>, after: Seq<u32>, vals: Seq<u8>, v: u8)
    requires
        is_histogram(before, vals),
        is_histogram(after, vals.push(v)),
    ensures
        forall|u: int|
            0 <= u < 256 ==> #[trigger] after[u] == before[u] + (if u == v {
                1int
            } else {
                0
            }),
        vals.len() == 0 ==> forall|u: int| 0 <= u < 256 ==> #[trigger] before[u] == 0,
{
    let n = vals.len() as int;
    assert forall|u: int| 0 <= u < 256 implies #[trigger] after[u] == before[u] + (if u == v {
        1int
    } else {
        0
    }) by {
        let p = has_value(vals, u);
        let q = has_value(vals.push(v), u);
        crate::counting::lemma_tally_same(p, q, n);
        assert(q(n) == (v == u));
        assert(tally(q, n + 1) == tally(q, n) + (if q(n) {
            1int
        } else {
            0
        }));
        assert(before[u] == tally(p, n));
    }
}

proof fn lemma_quantile_unique(vals: Seq<u8>, target: int, u: int, v: int)
    requires
        is_quantile(vals, target, u),
        is_quantile(vals, target, v),
    ensures
        u == v,
{
    if u < v {
        assert(count_at_most(vals, u) < target);
    } else if v < u {
        assert(count_at_most(vals, v) < target);
    }
}

proof fn lemma_quantile(vals: Seq<u8>, target: int, v: int)
    requires
        0 <= v < 256,
        tally(|i: int| vals[i] <= v, vals.len() as int) >= target,
        v > 0 ==> tally(|i: int| vals[i] < v, vals.len() as int) < target,
    ensures
        is_quantile(vals, target, v),
{
    let n = vals.len() as int;
    crate::counting::lemma_tally_same(at_most(vals, v), |i: int| vals[i] <= v, n);
    assert forall|u: int| 0 <= u < v implies #[trigger] count_at_most(vals, u) < target by {
        crate::counting::lemma_tally_implies(at_most(vals, u), |i: int| vals[i] < v, n);
    }
}

/// The stretch runs from the least value that a hundredth of the values, rounded down, do not
/// exceed, to the least that ninety-nine hundredths, rounded down, do not exceed. Where the
/// first does not lie below the second, and where there are no values, there is no stretch.
pub proof fn law_percentiles(vals: Seq<u8>, p1: u8, p99: u8, r: Option<(u8, u8)>)
    requires
        is_stretch(vals, r),
        100 * tally(|i: int| vals[i] <= p1, vals.len() as int) > vals.len() - 100,
        p1 > 0 ==> 100 * tally(|i: int| vals[i] < p1, vals.len() as int) <= vals.len() - 100,
        100 * tally(|i: int| vals[i] <= p99, vals.len() as int) > 99 * vals.len() - 100,
        p99 > 0 ==> 100 * tally(|i: int| vals[i] < p99, vals.len() as int) <= 99 * vals.len() - 100,
    ensures
        vals.len() == 0 ==> r is None,
        vals.len() > 0 ==> r == (if p1 < p99 {
            Some((p1, p99))
        } else {
            None
        }),
{
    let n = vals.len() as int;
    if n > 0 {
        lemma_tally_same_bound(vals, p1 as int);
        lemma_tally_same_bound(vals, p99 as int);
        lemma_quantile(vals, n / 100, p1 as int);
        lemma_quantile(vals, n * 99 / 100, p99 as int);
        match r {
            Some((a, b)) => {
                lemma_quantile_unique(vals, n / 100, p1 as int, a as int);
                lemma_quantile_unique(vals, n * 99 / 100, p99 as int, b as int);
            },
            None => {
                let (a, b) = choose|a: int, b: int|
                    a >= b && #[trigger] is_quantile(vals, n / 100, a) && #[trigger] is_quantile(
                        vals,
                        n * 99 / 100,
                        b,
                    );
                lemma_quantile_unique(vals, n / 100, p1 as int, a);
                lemma_quantile_unique(vals, n * 99 / 100, p99 as int, b);
            },
        }
    }
}

proof fn lemma_tally_same_bound(vals: Seq<u8>, v: int)
    ensures
        tally(|i: int| vals[i] <= v, vals.len() as int) == count_at_most(vals, v),
{
    crate::counting::lemma_tally_same(
        |i: int| vals[i] <= v,
        at_most(vals, v),
        vals.len() as int,
    );
}

/// There is one stretch for a list of values.
pub proof fn law_stretch_unique(vals: Seq<u8>, a: Option<(u8, u8)>, b: Option<(u8, u8)>)
    requires
        is_stretch(vals, a),
        is_stretch(vals, b),
    ensures
        a == b,
{
    let n = vals.len() as int;
    if n > 0 {
        let (p, q): (int, int) = match a {
            Some((p, q)) => (p as int, q as int),
            None => choose|p: int, q: int|
                p >= q && #[trigger] is_quantile(vals, n / 100, p) && #[trigger] is_quantile(
                    vals,
                    n * 99 / 100,
                    q,
                ),
        };
        let (s, t): (int, int) = match b {
            Some((s, t)) => (s as int, t as int),
            None => choose|s: int, t: int|
                s >= t && #[trigger] is_quantile(vals, n / 100, s) && #[trigger] is_quantile(
                    vals,
                    n * 99 / 100,
                    t,
                ),
        };
        lemma_quantile_unique(vals, n / 100, p, s);
        lemma_quantile_unique(vals, n * 99 / 100, q, t);
    }
}

/// The classes of a threshold are the values up to it and those above it. The histogram gives
/// how many there are and what they add up to.
pub proof fn law_classes(hist: Seq<u32>, vals: Seq<u8>, t: int)
    requires
        is_histogram(hist, vals),
        -1 <= t < 256,
    ensures
        weight(hist, t) == tally(|i: int| vals[i] <= t, vals.len() as int),
        weight(hist, 255) == vals.len(),
        moment(hist, t) == total(
            |i: int|
                if vals[i] <= t {
                    vals[i] as int
                } else {
                    0
                },
            vals.len() as int,
        ),
{
    lemma_weight(hist, vals, t);
    lemma_weight_all(hist, vals);
    lemma_tally_same_bound(vals, t);
    lemma_moment(hist, vals, t);
}

proof fn lemma_moment(hist: Seq<u32>, vals: Seq<u8>, t: int)
    requires
        is_histogram(hist, vals),
        -1 <= t < 256,
    ensures
        moment(hist, t) == total(
            |i: int|
                if vals[i] <= t {
                    vals[i] as int
                } else {
                    0
                },
            vals.len() as int,
        ),
    decreases t + 1,
{
    let n = vals.len() as int;
    let f = |i: int|
        if vals[i] <= t {
            vals[i] as int
        } else {
            0
        };
    if t == -1 {
        crate::counting::lemma_total_none(f, n);
    } else {
        lemma_moment(hist, vals, t - 1);
        let before = |i: int|
            if vals[i] <= t - 1 {
                vals[i] as int
            } else {
                0
            };
        let here = |i: int|
            if vals[i] == t {
                t
            } else {
                0
            };
        crate::counting::lemma_total_plus(before, here, f, n);
        crate::counting::lemma_total_per_tally(here, has_value(vals, t), n, t, t);
        assert(t * hist[t] == t * tally(has_value(vals, t), n));
        assert(moment(hist, t) == moment(hist, t - 1) + t * hist[t]);
    }
}

/// Otsu's threshold parts the values as well as any: with `n0` values up to a threshold that
/// add up to `s0`, and `n1` above it that add up to `s1`, the square of the difference of the
/// means times `n0` times `n1` is nowhere larger, and smaller at every lower threshold. Where
/// no threshold leaves values on both sides, it is 128.
pub proof fn law_otsu_best(hist: Seq<u32>, thr: int, t: int)
    requires
        hist.len() == 256,
        is_otsu(hist, thr),
        0 <= t < 256,
    ensures
        ({
            let n0 = total(|v: int| hist[v] as int, t + 1);
            let n1 = total(|v: int| hist[v] as int, 256) - n0;
            let s0 = total(|v: int| v * hist[v], t + 1);
            let s1 = total(|v: int| v * hist[v], 256) - s0;
            let m0 = total(|v: int| hist[v] as int, thr + 1);
            let m1 = total(|v: int| hist[v] as int, 256) - m0;
            let r0 = total(|v: int| v * hist[v], thr + 1);
            let r1 = total(|v: int| v * hist[v], 256) - r0;
            let gap = s1 * n0 - s0 * n1;
            let best = r1 * m0 - r0 * m1;
            n0 > 0 && n1 > 0 ==> {
                &&& 0 <= thr < 256 && m0 > 0 && m1 > 0
                &&& gap * gap * (m0 * m1) <= best * best * (n0 * n1)
                &&& t < thr ==> gap * gap * (m0 * m1) < best * best * (n0 * n1)
            }
        }),
        (forall|u: int|
            0 <= u < 256 ==> #[trigger] weight(hist, u) <= 0 || weight(hist, u) >= weight(hist, 255))
            ==> thr == 128,
{
    crate::counting::lemma_total_same(|v: int| hist[v] as int, entry(hist), t + 1);
    crate::counting::lemma_total_same(|v: int| hist[v] as int, entry(hist), 256);
    crate::counting::lemma_total_same(|v: int| hist[v] as int, entry(hist), thr + 1);
    crate::counting::lemma_total_same(|v: int| v * hist[v], weighted_entry(hist), t + 1);
    crate::counting::lemma_total_same(|v: int| v * hist[v], weighted_entry(hist), 256);
    crate::counting::lemma_total_same(|v: int| v * hist[v], weighted_entry(hist), thr + 1);
    if 0 < weight(hist, t) && weight(hist, t) < weight(hist, 255) {
        assert(is_split(hist, t));
    }
    if forall|u: int|
        0 <= u < 256 ==> #[trigger] weight(hist, u) <= 0 || weight(hist, u) >= weight(hist, 255) {
        assert forall|u: int| !is_split(hist, u) by {
            if 0 <= u < 256 {
                assert(weight(hist, u) <= 0 || weight(hist, u) >= weight(hist, 255));
            }
        }
    }
}

/// There is one threshold for a histogram.
pub proof fn law_otsu_unique(hist: Seq<u32>, a: int, b: int)
    requires
        is_otsu(hist, a),
        is_otsu(hist, b),
    ensures
        a == b,
{
    if a < b {
        assert(separates_better(hist, b, a));
    } else if b < a {
        assert(separates_better(hist, a, b));
    }
}

} // verus!
