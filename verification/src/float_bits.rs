//! What can be told of floating-point numbers from their bit patterns.

use vstd::arithmetic::power2::{lemma_pow2_pos, lemma_pow2_unfold, pow2};
use vstd::prelude::*;

verus! {

/// The bit pattern of infinity.
pub const INF: u32 = 0x7f80_0000;

/// The bit that negative numbers have.
pub const SIGN: u32 = 0x8000_0000;

/// The pattern is that of no number.
pub open spec fn is_nan(b: u32) -> bool {
    b % SIGN > INF
}

/// A key that orders as the numbers do; the two zeros have the same key.
pub open spec fn float_key(b: u32) -> i64 {
    if b < SIGN {
        b as i64
    } else {
        -((b - SIGN) as i64) as i64
    }
}

/// A key that orders as the numbers do.
pub fn key_of(b: u32) -> (k: i64)
    ensures
        k == float_key(b),
{
    if b < SIGN {
        b as i64
    } else {
        0 - (b - SIGN) as i64
    }
}

/// One number exceeds another.
pub open spec fn exceeds(a: u32, b: u32) -> bool {
    !is_nan(a) && !is_nan(b) && float_key(a) > float_key(b)
}

/// Whether one number exceeds another.
pub fn is_larger(a: u32, b: u32) -> (r: bool)
    ensures
        r == exceeds(a, b),
{
    a % SIGN <= INF && b % SIGN <= INF && key_of(a) > key_of(b)
}

/// One number reaches another: it is equal or exceeds it.
pub open spec fn reaches(a: u32, b: u32) -> bool {
    !is_nan(a) && !is_nan(b) && float_key(a) >= float_key(b)
}

/// Whether one number reaches another.
pub fn is_at_least(a: u32, b: u32) -> (r: bool)
    ensures
        r == reaches(a, b),
{
    a % SIGN <= INF && b % SIGN <= INF && key_of(a) >= key_of(b)
}

/// The number without what stands behind its point. Negative numbers and what is no number
/// count as zero, and infinity exceeds every bound.
pub open spec fn whole_part(b: u32) -> int {
    let e = b / 0x80_0000;
    let m = 0x80_0000 + b % 0x80_0000;
    if b >= INF || e < 127 {
        0
    } else if e >= 150 {
        m * pow2((e - 150) as nat)
    } else {
        m / (pow2((150 - e) as nat) as int)
    }
}

/// The whole part of a number as an unsigned integer; numbers beyond the last integer give
/// the last one.
pub open spec fn as_unsigned(b: u32, last: int) -> int {
    if b == INF || whole_part(b) > last {
        last
    } else {
        whole_part(b)
    }
}

/// The pattern is that of a whole number that all digits of a float can hold.
pub open spec fn is_whole(b: u32, n: int) -> bool {
    let e = b / 0x80_0000;
    let m = 0x80_0000 + b % 0x80_0000;
    if n == 0 {
        b == 0
    } else {
        127 <= e <= 150 && m == n * pow2((150 - e) as nat)
    }
}

/// The pattern of a whole number.
pub fn whole_number(n: u32) -> (b: u32)
    requires
        n < 0x100_0000,
    ensures
        is_whole(b, n as int),
{
    if n == 0 {
        return 0;
    }
    let mut m: u32 = n;
    let mut e: u32 = 150;
    proof {
        vstd::arithmetic::power2::lemma2_to64();
        assert(n * pow2(0) == n) by (nonlinear_arith)
            requires
                pow2(0) == 1,
        ;
    }
    while m < 0x80_0000
        invariant
            0 < n,
            m < 0x100_0000,
            127 <= e <= 150,
            m == n * pow2((150 - e) as nat),
        decreases e,
    {
        proof {
            let k = (150 - e) as nat;
            vstd::arithmetic::power2::lemma2_to64();
            lemma_pow2_unfold(k + 1);
            lemma_pow2_pos(k);
            assert(n * pow2(k) >= pow2(k)) by (nonlinear_arith)
                requires
                    n > 0,
                    pow2(k) > 0,
            ;
            assert(n * (2 * pow2(k)) == 2 * (n * pow2(k))) by (nonlinear_arith);
            assert(e != 127);
        }
        m = 2 * m;
        e = e - 1;
    }
    e * 0x80_0000 + (m - 0x80_0000)
}

/// The whole part of a whole number is the number itself.
pub proof fn law_whole(b: u32, n: int, last: int)
    requires
        is_whole(b, n),
        0 <= n <= last,
    ensures
        as_unsigned(b, last) == n,
{
    let e = b / 0x80_0000;
    let m = 0x80_0000 + b % 0x80_0000;
    if n != 0 {
        let k = (150 - e) as nat;
        lemma_pow2_pos(k);
        vstd::arithmetic::power2::lemma2_to64();
        if e < 150 {
            vstd::arithmetic::div_mod::lemma_div_by_multiple(n, pow2(k) as int);
        } else {
            assert(m * pow2(0) == m) by (nonlinear_arith)
                requires
                    pow2(0) == 1,
            ;
            assert(n * pow2(0) == n) by (nonlinear_arith)
                requires
                    pow2(0) == 1,
            ;
        }
    }
}

fn scaled_up(m: u64, k: u32) -> (r: Option<u64>)
    requires
        m > 0,
    ensures
        r is Some ==> r->0 == m * pow2(k as nat),
        r is None ==> m * pow2(k as nat) > u64::MAX,
{
    let mut v: u64 = m;
    let mut i: u32 = 0;
    proof {
        vstd::arithmetic::power2::lemma2_to64();
    }
    while i < k
        invariant
            i <= k,
            m > 0,
            v == m * pow2(i as nat),
        decreases k - i,
    {
        proof {
            lemma_pow2_unfold((i + 1) as nat);
            lemma_pow2_pos(i as nat);
            assert(m * (2 * pow2(i as nat)) == 2 * (m * pow2(i as nat))) by (nonlinear_arith);
        }
        if v > 0x7fff_ffff_ffff_ffff {
            proof {
                lemma_grows(m as int, (i + 1) as nat, k as nat);
            }
            return None;
        }
        v = 2 * v;
        i = i + 1;
    }
    Some(v)
}

proof fn lemma_grows(m: int, a: nat, b: nat)
    requires
        m > 0,
        a <= b,
    ensures
        m * pow2(a) <= m * pow2(b),
    decreases b,
{
    if a < b {
        lemma_grows(m, a, (b - 1) as nat);
        lemma_pow2_unfold(b);
        lemma_pow2_pos((b - 1) as nat);
        assert(m * pow2((b - 1) as nat) <= m * (2 * pow2((b - 1) as nat))) by (nonlinear_arith)
            requires
                m > 0,
                pow2((b - 1) as nat) > 0,
        ;
    }
}

fn scaled_down(m: u64, k: u32) -> (r: u64)
    ensures
        r == m as int / (pow2(k as nat) as int),
{
    let mut v: u64 = m;
    let mut i: u32 = 0;
    proof {
        vstd::arithmetic::power2::lemma2_to64();
    }
    while i < k
        invariant
            i <= k,
            v == m as int / (pow2(i as nat) as int),
        decreases k - i,
    {
        proof {
            lemma_pow2_unfold((i + 1) as nat);
            lemma_pow2_pos(i as nat);
            vstd::arithmetic::div_mod::lemma_div_denominator(
                m as int,
                pow2(i as nat) as int,
                2,
            );
            assert(pow2(i as nat) as int * 2 == pow2((i + 1) as nat) as int);
        }
        v = v / 2;
        i = i + 1;
    }
    v
}

/// The whole part of a number as an unsigned integer up to `last`.
pub fn to_unsigned(b: u32, last: u64) -> (r: u64)
    ensures
        r == as_unsigned(b, last as int),
{
    if b == INF {
        return last;
    }
    if b > INF {
        return 0;
    }
    let e: u32 = b / 0x80_0000;
    let m: u64 = (0x80_0000 + b % 0x80_0000) as u64;
    if e < 127 {
        return 0;
    }
    let v: u64 = if e >= 150 {
        match scaled_up(m, e - 150) {
            Some(v) => v,
            None => {
                return last;
            },
        }
    } else {
        scaled_down(m, 150 - e)
    };
    if v > last {
        last
    } else {
        v
    }
}

/// Of two keys the smaller one belongs to the smaller number: for numbers of the same sign
/// the pattern decides, and negative numbers come before the others.
pub proof fn law_key_order(a: u32, b: u32)
    requires
        !is_nan(a),
        !is_nan(b),
    ensures
        a < SIGN && b < SIGN ==> (float_key(a) <= float_key(b) <==> a <= b),
        a >= SIGN && b >= SIGN ==> (float_key(a) <= float_key(b) <==> b <= a),
        a >= SIGN && b < SIGN ==> float_key(a) <= float_key(b),
{
}

/// What is no number exceeds and reaches nothing, and nothing exceeds or reaches it. Numbers
/// without sign compare as their patterns do, the sign turns the comparison round, and either
/// zero reaches the other. One number exceeds another exactly if it reaches it and is not
/// reached by it.
pub proof fn law_comparisons(a: u32, b: u32)
    ensures
        a % 0x8000_0000 > 0x7f80_0000 || b % 0x8000_0000 > 0x7f80_0000 ==> !exceeds(a, b)
            && !reaches(a, b),
        a <= 0x7f80_0000 && b <= 0x7f80_0000 ==> (exceeds(a, b) <==> a > b) && (reaches(a, b) <==> a
            >= b),
        a <= 0x7f80_0000 && b <= 0x7f80_0000 ==> exceeds((a + 0x8000_0000) as u32, (b
            + 0x8000_0000) as u32) == exceeds(b, a),
        a <= 0x7f80_0000 && b <= 0x7f80_0000 ==> reaches(a, (b + 0x8000_0000) as u32) && (exceeds(
            a,
            (b + 0x8000_0000) as u32,
        ) <==> a > 0 || b > 0),
        a <= 0x7f80_0000 && b <= 0x7f80_0000 ==> !exceeds((a + 0x8000_0000) as u32, b) && (reaches(
            (a + 0x8000_0000) as u32,
            b,
        ) <==> a == 0 && b == 0),
        exceeds(a, b) <==> reaches(a, b) && !reaches(b, a),
{
}

/// The powers of two have their usual patterns: that of one, and a step of the exponent for
/// each doubling.
pub proof fn law_powers_of_two(e: u32)
    requires
        e <= 23,
    ensures
        is_whole((0x3f80_0000 + e * 0x80_0000) as u32, pow2(e as nat) as int),
{
    let b = (0x3f80_0000 + e * 0x80_0000) as u32;
    assert(b / 0x80_0000 == 127 + e && b % 0x80_0000 == 0);
    lemma_pow2_pos(e as nat);
    vstd::arithmetic::power2::lemma_pow2_adds(e as nat, (23 - e) as nat);
    vstd::arithmetic::power2::lemma2_to64();
    assert(pow2(23) == 0x80_0000);
}

} // verus!
