//! Rankings of glyphs by score.
//!
//! Scores are the bit patterns of floating-point numbers. Distances are not negative, so that
//! they are ordered as their bit patterns are.

use vstd::prelude::*;
use crate::float_bits::{float_key, is_nan, key_of, INF};
use crate::sorting::{
    is_kth, is_stable_order, key_views, kth_smallest, law_lexicographic, stable_order,
};

verus! {

/// The bit pattern of `1e-30`; what does not exceed it counts as zero.
pub const TINY_BITS: u32 = 0x0da2_4260;

/// What a glyph is ranked by: first the higher score, then the lower number.
pub open spec fn rank_key(p: (u32, u32)) -> Seq<i64> {
    seq![-float_key(p.1) as i64, p.0 as i64]
}

pub open spec fn rank_keys(probs: Seq<(u32, u32)>) -> Seq<Seq<i64>> {
    Seq::new(probs.len(), |i: int| rank_key(probs[i]))
}

/// The first `k` of the glyphs in the order `order`.
pub open spec fn picked(probs: Seq<(u32, u32)>, order: Seq<usize>, k: int) -> Seq<(u32, u32)> {
    Seq::new(
        if k < probs.len() {
            k as nat
        } else {
            probs.len()
        },
        |i: int| probs[order[i] as int],
    )
}

/// The best `k` of glyphs with their scores: by score from high to low, equal scores by
/// ascending number. Where all have one score they keep their order.
pub fn top_k_by_prob(probs: &Vec<(u32, u32)>, k: usize, is_uniform: bool) -> (r: Vec<(u32, u32)>)
    requires
        forall|i: int| 0 <= i < probs@.len() ==> !is_nan((#[trigger] probs@[i]).1),
    ensures
        is_uniform ==> r@ == probs@.take(if k < probs@.len() {
            k as int
        } else {
            probs@.len() as int
        }),
        !is_uniform ==> exists|order: Seq<usize>| #[trigger]
            is_stable_order(rank_keys(probs@), order) && r@ == picked(probs@, order, k as int),
{
    let n: usize = probs.len();
    let m: usize = if k < n {
        k
    } else {
        n
    };
    let mut out: Vec<(u32, u32)> = Vec::new();
    if is_uniform {
        for i in 0..m
            invariant
                n == probs@.len(),
                m <= n,
                out@ == probs@.take(i as int),
        {
            out.push(probs[i]);
            assert(out@ =~= probs@.take(i + 1));
        }
        return out;
    }
    let mut keys: Vec<Vec<i64>> = Vec::new();
    for i in 0..n
        invariant
            n == probs@.len(),
            keys@.len() == i,
            forall|j: int| 0 <= j < i ==> (#[trigger] keys@[j])@ == rank_key(probs@[j]),
    {
        let p: (u32, u32) = probs[i];
        let mut key: Vec<i64> = Vec::new();
        key.push(0 - key_of(p.1));
        key.push(p.0 as i64);
        assert(key@ =~= rank_key(p));
        keys.push(key);
    }
    assert(key_views(keys@) =~= rank_keys(probs@));
    let order: Vec<usize> = stable_order(&keys);
    for i in 0..m
        invariant
            n == probs@.len(),
            m <= n,
            order@.len() == n,
            forall|a: int| 0 <= a < n ==> #[trigger] order@[a] < n,
            out@ == picked(probs@, order@, i as int),
    {
        out.push(probs[order[i]]);
        assert(out@ =~= picked(probs@, order@, i + 1));
    }
    assert(picked(probs@, order@, m as int) =~= picked(probs@, order@, k as int));
    out
}

/// `p` is the entry of `probs` that comes first for a glyph.
pub open spec fn first_score(probs: Seq<(u32, u32)>, id: u32, i: int) -> bool {
    &&& 0 <= i < probs.len()
    &&& probs[i].0 == id
    &&& forall|j: int| 0 <= j < i ==> (#[trigger] probs[j]).0 != id
}

/// The score of a glyph.
pub fn score_of(probs: &Vec<(u32, u32)>, id: u32) -> (r: Option<u32>)
    ensures
        r is None <==> forall|i: int| 0 <= i < probs@.len() ==> (#[trigger] probs@[i]).0 != id,
        r is Some ==> exists|i: int| #[trigger] first_score(probs@, id, i) && r->0 == probs@[i].1,
{
    let n: usize = probs.len();
    for i in 0..n
        invariant
            n == probs@.len(),
            forall|j: int| 0 <= j < i ==> (#[trigger] probs@[j]).0 != id,
    {
        if probs[i].0 == id {
            assert(first_score(probs@, id, i as int));
            return Some(probs[i].1);
        }
    }
    None
}

/// The median of scores: the element in the middle, the upper one of two.
pub fn median(v: &Vec<u32>) -> (m: u32)
    requires
        v@.len() > 0,
    ensures
        is_kth(v@, v@.len() as int / 2, m as int),
{
    kth_smallest(v, v.len() / 2)
}

/// `m` is the least of the scores in a row, one of them left out; infinity where no other
/// is less.
pub open spec fn is_nearest(row: Seq<u32>, except: int, m: u32) -> bool {
    &&& forall|j: int| 0 <= j < row.len() && j != except ==> m <= #[trigger] row[j]
    &&& m <= INF
    &&& m == INF || exists|j: int|
        0 <= j < row.len() && j != except && m == #[trigger] row[j]
}

/// The least of the scores in a row, one of them left out.
pub fn nearest(row: &Vec<u32>, except: usize) -> (m: u32)
    ensures
        is_nearest(row@, except as int, m),
{
    let n: usize = row.len();
    let mut m: u32 = INF;
    for j in 0..n
        invariant
            n == row@.len(),
            forall|k: int| 0 <= k < j && k != except ==> m <= #[trigger] row@[k],
            m <= INF,
            m == INF || exists|k: int|
                0 <= k < n && k != except && m == #[trigger] row@[k],
    {
        if j != except && row[j] < m {
            m = row[j];
            assert(row@[j as int] == m);
        }
    }
    m
}

/// A glyph of a ranking is one of the glyphs that were ranked, and it does not come after one
/// with a lower score, nor after one with the same score and a higher number. A glyph that is
/// left out has no higher score than any that is kept.
pub proof fn law_ranked(probs: Seq<(u32, u32)>, order: Seq<usize>, k: int, i: int, j: int)
    requires
        is_stable_order(rank_keys(probs), order),
        forall|a: int| 0 <= a < probs.len() ==> !is_nan((#[trigger] probs[a]).1),
        0 <= i < j < probs.len(),
        i < k,
    ensures
        picked(probs, order, k).len() == if k < probs.len() {
            k
        } else {
            probs.len() as int
        },
        picked(probs, order, k)[i] == probs[order[i] as int],
        0 <= order[i] < probs.len(),
        0 <= order[j] < probs.len(),
        order[i] != order[j],
        float_key(probs[order[i] as int].1) >= float_key(probs[order[j] as int].1),
        float_key(probs[order[i] as int].1) == float_key(probs[order[j] as int].1)
            ==> probs[order[i] as int].0 <= probs[order[j] as int].0,
{
    let a = order[i] as int;
    let b = order[j] as int;
    let keys = rank_keys(probs);
    assert(keys[a] == rank_key(probs[a]));
    assert(keys[b] == rank_key(probs[b]));
    law_lexicographic(keys[b], keys[a], 0);
    if keys[a][0] == keys[b][0] {
        law_lexicographic(keys[b], keys[a], 1);
    }
}

/// The nearest score is at most every other score but the one that is left out, and it is the
/// greatest number up to infinity that is.
pub proof fn law_nearest(row: Seq<u32>, except: int, m: u32, bound: u32)
    requires
        is_nearest(row, except, m),
    ensures
        bound <= m <==> bound <= 0x7f80_0000 && forall|j: int|
            0 <= j < row.len() && j != except ==> bound <= #[trigger] row[j],
{
}


/// Where an entry has the number of a glyph, one of them comes first.
pub proof fn law_score_known(probs: Seq<(u32, u32)>, id: u32, k: int) -> (i: int)
    requires
        0 <= k < probs.len(),
        probs[k].0 == id,
    ensures
        first_score(probs, id, i),
    decreases k,
{
    if exists|j: int| 0 <= j < k && (#[trigger] probs[j]).0 == id {
        let j = choose|j: int| 0 <= j < k && (#[trigger] probs[j]).0 == id;
        law_score_known(probs, id, j)
    } else {
        k
    }
}

/// The score of a glyph is that of the first entry with its number: no entry before it has the
/// number.
pub proof fn law_first_score(probs: Seq<(u32, u32)>, id: u32, i: int, k: int)
    requires
        first_score(probs, id, i),
        0 <= k < probs.len(),
        probs[k].0 == id,
    ensures
        0 <= i <= k,
        probs[i].0 == id,
{
}


} // verus!
