//! Order statistics and stable orderings.

use vstd::prelude::*;
use crate::counting::{tally, lemma_tally_implies, lemma_tally_none};
use crate::text::{same_chars, slice_of, views};

verus! {

// --- Order statistics ---

pub open spec fn below(s: Seq<u32>, v: int) -> spec_fn(int) -> bool {
    |i: int| s[i] < v
}

pub open spec fn up_to(s: Seq<u32>, v: int) -> spec_fn(int) -> bool {
    |i: int| s[i] <= v
}

/// `v` stands at position `k` when the elements of `s` are put in ascending order: at most
/// `k` of them are smaller, and more than `k` do not exceed it.
pub open spec fn is_kth(s: Seq<u32>, k: int, v: int) -> bool {
    &&& exists|i: int| 0 <= i < s.len() && #[trigger] s[i] == v
    &&& tally(below(s, v), s.len() as int) <= k
    &&& k < tally(up_to(s, v), s.len() as int)
}

/// There is only one element at each position.
pub proof fn law_kth_unique(s: Seq<u32>, k: int, u: int, v: int)
    requires
        is_kth(s, k, u),
        is_kth(s, k, v),
    ensures
        u == v,
{
    let n = s.len() as int;
    if u < v {
        lemma_tally_implies(up_to(s, u), below(s, v), n);
    } else if v < u {
        lemma_tally_implies(up_to(s, v), below(s, u), n);
    }
}

/// How many elements do not exceed `v`.
fn count_up_to(s: &Vec<u32>, v: u32) -> (c: usize)
    ensures
        c == tally(up_to(s@, v as int), s@.len() as int),
{
    let n: usize = s.len();
    let mut c: usize = 0;
    for i in 0..n
        invariant
            n == s@.len(),
            c == tally(up_to(s@, v as int), i as int),
            c <= i,
    {
        if s[i] <= v {
            c = c + 1;
        }
    }
    c
}

proof fn lemma_tally_all(s: Seq<u32>, v: int, n: int)
    requires
        0 <= n <= s.len(),
        forall|i: int| 0 <= i < n ==> #[trigger] s[i] <= v,
    ensures
        tally(up_to(s, v), n) == n,
    decreases n,
{
    if n > 0 {
        lemma_tally_all(s, v, n - 1);
    }
}

/// The element at position `k` in ascending order.
pub fn kth_smallest(s: &Vec<u32>, k: usize) -> (v: u32)
    requires
        k < s@.len(),
    ensures
        is_kth(s@, k as int, v as int),
{
    let n: usize = s.len();
    let mut lo: u32 = 0;
    let mut hi: u32 = u32::MAX;
    proof {
        lemma_tally_all(s@, hi as int, n as int);
        lemma_tally_none(below(s@, 0), n as int);
    }
    while lo < hi
        invariant
            n == s@.len(),
            k < n,
            lo <= hi,
            tally(up_to(s@, hi as int), n as int) > k,
            tally(below(s@, lo as int), n as int) <= k,
        decreases hi - lo,
    {
        let mid: u32 = lo + (hi - lo) / 2;
        if count_up_to(s, mid) > k {
            hi = mid;
        } else {
            proof {
                lemma_tally_implies(below(s@, mid + 1), up_to(s@, mid as int), n as int);
            }
            lo = mid + 1;
        }
    }
    proof {
        if forall|i: int| 0 <= i < n ==> s@[i] != lo {
            lemma_tally_implies(up_to(s@, lo as int), below(s@, lo as int), n as int);
        }
    }
    lo
}

// --- Stable orderings ---

/// `order` lists each index below `n` exactly once.
pub open spec fn is_permutation(order: Seq<usize>, n: int) -> bool {
    &&& order.len() == n
    &&& forall|a: int| 0 <= a < n ==> #[trigger] order[a] < n
    &&& forall|a: int, b: int| 0 <= a < b < n ==> order[a] != order[b]
    &&& forall|i: int| 0 <= i < n ==> order.contains(#[trigger] (i as usize))
}

/// Lexicographic comparison of key sequences.
pub open spec fn lex_le(a: Seq<i64>, b: Seq<i64>) -> bool
    decreases a.len(),
{
    if a.len() == 0 {
        true
    } else if b.len() == 0 {
        false
    } else if a[0] != b[0] {
        a[0] < b[0]
    } else {
        lex_le(a.drop_first(), b.drop_first())
    }
}

pub proof fn lemma_lex_total(a: Seq<i64>, b: Seq<i64>)
    ensures
        lex_le(a, b) || lex_le(b, a),
        lex_le(a, b) && lex_le(b, a) ==> a == b,
        lex_le(a, a),
    decreases a.len(),
{
    if a.len() > 0 {
        assert(lex_le(a, a)) by {
            lemma_lex_total(a.drop_first(), a.drop_first());
        }
    }
    if a.len() > 0 && b.len() > 0 && a[0] == b[0] {
        lemma_lex_total(a.drop_first(), b.drop_first());
        if lex_le(a, b) && lex_le(b, a) {
            assert(a =~= seq![a[0]] + a.drop_first());
            assert(b =~= seq![b[0]] + b.drop_first());
        }
    } else if a.len() == 0 && b.len() == 0 {
        assert(a =~= b);
    }
}

pub proof fn lemma_lex_trans(a: Seq<i64>, b: Seq<i64>, c: Seq<i64>)
    requires
        lex_le(a, b),
        lex_le(b, c),
    ensures
        lex_le(a, c),
    decreases a.len(),
{
    if a.len() > 0 && b.len() > 0 && c.len() > 0 && a[0] == b[0] && b[0] == c[0] {
        lemma_lex_trans(a.drop_first(), b.drop_first(), c.drop_first());
    }
}

/// In a stable ascending ordering, index `i` comes before index `j`.
pub open spec fn goes_before(keys: Seq<Seq<i64>>, i: int, j: int) -> bool {
    lex_le(keys[i], keys[j]) && (keys[i] != keys[j] || i < j)
}

/// `order` lists the indices of `keys` by ascending key, equal keys in their given order.
pub open spec fn is_stable_order(keys: Seq<Seq<i64>>, order: Seq<usize>) -> bool {
    &&& is_permutation(order, keys.len() as int)
    &&& forall|a: int, b: int|
        0 <= a < b < order.len() ==> goes_before(
            keys,
            #[trigger] order[a] as int,
            #[trigger] order[b] as int,
        )
}

/// The key sequences of a list of keys.
pub open spec fn key_views(keys: Seq<Vec<i64>>) -> Seq<Seq<i64>> {
    Seq::new(keys.len(), |i: int| keys[i]@)
}

pub fn lex_at_most(a: &Vec<i64>, b: &Vec<i64>) -> (r: bool)
    ensures
        r == lex_le(a@, b@),
{
    let mut i: usize = 0;
    let ghost mut ra = a@;
    let ghost mut rb = b@;
    assert(a@.subrange(0, a@.len() as int) =~= a@);
    assert(b@.subrange(0, b@.len() as int) =~= b@);
    while i < a.len() && i < b.len()
        invariant
            i <= a@.len(),
            i <= b@.len(),
            ra == a@.subrange(i as int, a@.len() as int),
            rb == b@.subrange(i as int, b@.len() as int),
            lex_le(a@, b@) == lex_le(ra, rb),
        decreases a@.len() - i,
    {
        if a[i] != b[i] {
            return a[i] < b[i];
        }
        proof {
            let na = a@.subrange(i + 1, a@.len() as int);
            let nb = b@.subrange(i + 1, b@.len() as int);
            assert(ra.drop_first() =~= na);
            assert(rb.drop_first() =~= nb);
            ra = na;
            rb = nb;
        }
        i = i + 1;
    }
    i == a.len()
}

/// Lists the indices of `keys` by ascending key; equal keys stay in their given order.
pub fn stable_order(keys: &Vec<Vec<i64>>) -> (order: Vec<usize>)
    ensures
        is_stable_order(key_views(keys@), order@),
{
    let n: usize = keys.len();
    let ghost kv = key_views(keys@);
    let mut order: Vec<usize> = Vec::new();
    for i in 0..n
        invariant
            n == keys@.len(),
            kv == key_views(keys@),
            order@.len() == i,
            forall|a: int| 0 <= a < i ==> #[trigger] order@[a] < i,
            forall|j: int| 0 <= j < i ==> order@.contains(#[trigger] (j as usize)),
            forall|a: int, b: int|
                0 <= a < b < i ==> goes_before(
                    kv,
                    #[trigger] order@[a] as int,
                    #[trigger] order@[b] as int,
                ),
    {
        // find the insertion point: after the last entry whose key does not exceed keys[i]
        let mut pos: usize = i;
        while pos > 0 && !lex_at_most(&keys[order[pos - 1]], &keys[i])
            invariant
                n == keys@.len(),
                i < n,
                kv == key_views(keys@),
                order@.len() == i,
                pos <= i,
                forall|a: int| 0 <= a < i ==> #[trigger] order@[a] < i,
                forall|a: int|
                    pos <= a < i ==> !lex_le(kv[#[trigger] order@[a] as int], kv[i as int]),
            decreases pos,
        {
            pos = pos - 1;
        }
        let ghost before = order@;
        order.insert(pos, i);
        proof {
            let after = order@;
            assert(after =~= before.insert(pos as int, i));
            assert forall|j: int| 0 <= j < i + 1 implies after.contains(#[trigger] (j as usize)) by {
                if j == i {
                    assert(after[pos as int] == i);
                } else {
                    assert(before.contains(j as usize));
                    let a = choose|a: int| 0 <= a < before.len() && before[a] == j as usize;
                    if a < pos {
                        assert(after[a] == j as usize);
                    } else {
                        assert(after[a + 1] == j as usize);
                    }
                }
            }
            // everything up to the insertion point has a key that does not exceed the new one
            assert forall|a: int| 0 <= a < pos implies lex_le(
                kv[#[trigger] before[a] as int],
                kv[i as int],
            ) by {
                if a < pos - 1 {
                    assert(goes_before(kv, before[a] as int, before[pos - 1] as int));
                    lemma_lex_trans(
                        kv[before[a] as int],
                        kv[before[pos - 1] as int],
                        kv[i as int],
                    );
                }
            }
            assert forall|a: int, b: int| 0 <= a < b < i + 1 implies goes_before(
                kv,
                #[trigger] after[a] as int,
                #[trigger] after[b] as int,
            ) by {
                if a == pos {
                    assert(after[b] == before[b - 1]);
                    lemma_lex_total(kv[before[b - 1] as int], kv[i as int]);
                } else if b == pos {
                    assert(after[a] == before[a]);
                } else {
                    let a0 = if a < pos {
                        a
                    } else {
                        a - 1
                    };
                    let b0 = if b < pos {
                        b
                    } else {
                        b - 1
                    };
                    assert(after[a] == before[a0] && after[b] == before[b0]);
                    assert(goes_before(kv, before[a0] as int, before[b0] as int));
                }
            }
        }
    }
    proof {
        assert forall|a: int, b: int| 0 <= a < b < order@.len() implies order@[a] != order@[b] by {
            assert(goes_before(kv, order@[a] as int, order@[b] as int));
        }
    }
    order
}

/// A stable ordering is determined by the keys.
pub proof fn law_stable_order_unique(keys: Seq<Seq<i64>>, p: Seq<usize>, q: Seq<usize>)
    requires
        keys.len() <= usize::MAX,
        is_stable_order(keys, p),
        is_stable_order(keys, q),
    ensures
        p == q,
{
    lemma_orders_agree(keys, p, q, keys.len() as int);
    assert(p =~= q);
}

proof fn lemma_orders_agree(keys: Seq<Seq<i64>>, p: Seq<usize>, q: Seq<usize>, n: int)
    requires
        keys.len() <= usize::MAX,
        is_stable_order(keys, p),
        is_stable_order(keys, q),
        0 <= n <= keys.len(),
    ensures
        forall|a: int| 0 <= a < n ==> p[a] == q[a],
    decreases n,
{
    if n > 0 {
        lemma_orders_agree(keys, p, q, n - 1);
        let a = n - 1;
        if p[a] != q[a] {
            // p[a] occurs in q after position a, and q[a] in p after position a
            assert(q.contains((p[a] as int) as usize));
            assert(p.contains((q[a] as int) as usize));
            let b = choose|b: int| 0 <= b < q.len() && q[b] == p[a];
            let c = choose|c: int| 0 <= c < p.len() && p[c] == q[a];
            if b < a {
                assert(p[b] == q[b]);
            }
            if c < a {
                assert(p[c] == q[c]);
            }
            assert(b > a && c > a);
            assert(goes_before(keys, q[a] as int, q[b] as int));
            assert(goes_before(keys, p[a] as int, p[c] as int));
            lemma_lex_total(keys[p[a] as int], keys[q[a] as int]);
            assert(false);
        }
    }
}

// --- Sorted lists of texts ---

/// The code points of a text.
pub open spec fn codes(s: Seq<char>) -> Seq<i64> {
    Seq::new(s.len(), |i: int| s[i] as u32 as i64)
}

/// Texts in ascending lexicographic order, none twice.
pub open spec fn strictly_ascending(s: Seq<Seq<char>>) -> bool {
    forall|i: int, j: int|
        0 <= i < j < s.len() ==> lex_le(codes(#[trigger] s[i]), codes(#[trigger] s[j])) && s[i]
            != s[j]
}

/// The code points of a text.
pub fn codes_of(s: &Vec<char>) -> (r: Vec<i64>)
    ensures
        r@ == codes(s@),
{
    let mut out: Vec<i64> = Vec::new();
    let n: usize = s.len();
    for i in 0..n
        invariant
            n == s@.len(),
            out@.len() == i,
            forall|k: int| 0 <= k < i ==> out@[k] == s@[k] as u32 as i64,
    {
        out.push(s[i] as u32 as i64);
    }
    assert(out@ =~= codes(s@));
    out
}

proof fn lemma_same_code(x: char, y: char)
    requires
        x as u32 as i64 == y as u32 as i64,
    ensures
        x == y,
{
}

/// Different texts have different code points.
pub proof fn lemma_codes_injective(a: Seq<char>, b: Seq<char>)
    requires
        codes(a) == codes(b),
    ensures
        a == b,
{
    assert(codes(a).len() == a.len());
    assert(codes(b).len() == b.len());
    assert forall|i: int| 0 <= i < a.len() implies a[i] == b[i] by {
        assert(codes(a)[i] == a[i] as u32 as i64);
        assert(codes(b)[i] == b[i] as u32 as i64);
        lemma_same_code(a[i], b[i]);
    }
    assert(a =~= b);
}

/// The texts of a list in ascending order, each one once.
pub fn sorted_unique(items: &Vec<Vec<char>>) -> (r: Vec<Vec<char>>)
    ensures
        strictly_ascending(views(r@)),
        forall|s: Seq<char>| #[trigger] views(r@).contains(s) <==> views(items@).contains(s),
{
    let n: usize = items.len();
    let mut keys: Vec<Vec<i64>> = Vec::new();
    for i in 0..n
        invariant
            n == items@.len(),
            keys@.len() == i,
            forall|k: int| 0 <= k < i ==> (#[trigger] keys@[k])@ == codes(items@[k]@),
    {
        keys.push(codes_of(&items[i]));
    }
    let order: Vec<usize> = stable_order(&keys);
    let ghost kv = key_views(keys@);
    let mut out: Vec<Vec<char>> = Vec::new();
    for a in 0..n
        invariant
            n == items@.len(),
            n == order@.len(),
            n == kv.len(),
            forall|k: int| 0 <= k < n ==> #[trigger] kv[k] == codes(items@[k]@),
            is_stable_order(kv, order@),
            strictly_ascending(views(out@)),
            a > 0 ==> out@.len() > 0 && out@[out@.len() - 1]@ == items@[order@[a - 1] as int]@,
            a == 0 ==> out@.len() == 0,
            forall|b: int|
                0 <= b < a ==> views(out@).contains(items@[#[trigger] order@[b] as int]@),
            forall|k: int|
                0 <= k < out@.len() ==> views(items@).contains((#[trigger] out@[k])@) && lex_le(
                    codes(out@[k]@),
                    codes(out@[out@.len() - 1]@),
                ),
    {
        let cur: usize = order[a];
        let m: usize = out.len();
        let fresh: bool = m == 0 || !same_chars(&out[m - 1], &items[cur]);
        let ghost before = views(out@);
        if fresh {
            let len: usize = items[cur].len();
            let copy: Vec<char> = slice_of(&items[cur], 0, len);
            assert(copy@ =~= items@[cur as int]@);
            proof {
                let last = codes(copy@);
                lemma_lex_total(last, last);
                if a > 0 {
                    assert(goes_before(kv, order@[a - 1] as int, order@[a as int] as int));
                    assert forall|k: int| 0 <= k < m implies lex_le(
                        codes((#[trigger] out@[k])@),
                        last,
                    ) && out@[k]@ != copy@ by {
                        let prev = codes(out@[m - 1]@);
                        lemma_lex_trans(codes(out@[k]@), prev, last);
                        if out@[k]@ == copy@ {
                            lemma_lex_total(prev, last);
                            lemma_codes_injective(out@[m - 1]@, copy@);
                        }
                    }
                }
                assert(views(items@)[cur as int] == copy@);
            }
            let ghost fresh_text = copy@;
            out.push(copy);
            proof {
                assert(views(out@) =~= before.push(fresh_text));
                assert forall|b: int| 0 <= b < a + 1 implies views(out@).contains(
                    items@[#[trigger] order@[b] as int]@,
                ) by {
                    if b == a {
                        assert(views(out@)[m as int] == fresh_text);
                    } else {
                        let t = items@[order@[b] as int]@;
                        assert(before.contains(t));
                        let k = choose|k: int| 0 <= k < before.len() && before[k] == t;
                        assert(views(out@)[k] == t);
                    }
                }
            }
        } else {
            assert(views(out@)[m - 1] == items@[cur as int]@);
        }
    }
    proof {
        assert forall|s: Seq<char>| #[trigger] views(out@).contains(s) <==> views(items@).contains(s) by {
            if views(items@).contains(s) {
                let i = choose|i: int| 0 <= i < n && views(items@)[i] == s;
                assert(order@.contains(i as usize));
                let b = choose|b: int| 0 <= b < n && order@[b] == i as usize;
                assert(views(out@).contains(items@[order@[b] as int]@));
            }
            if views(out@).contains(s) {
                let k = choose|k: int| 0 <= k < out@.len() && views(out@)[k] == s;
                assert(views(items@).contains(out@[k]@));
            }
        }
    }
    out
}

/// A strictly ascending list is determined by what it holds.
pub proof fn law_ascending_unique(a: Seq<Seq<char>>, b: Seq<Seq<char>>)
    requires
        strictly_ascending(a),
        strictly_ascending(b),
        forall|s: Seq<char>| a.contains(s) <==> b.contains(s),
    ensures
        a == b,
    decreases a.len(),
{
    if a.len() == 0 {
        if b.len() > 0 {
            assert(b.contains(b[0]));
        }
        assert(a =~= b);
    } else {
        assert(a.contains(a.last()));
        assert(b.contains(a.last()));
        let i = choose|i: int| 0 <= i < b.len() && b[i] == a.last();
        assert(b.contains(b.last()));
        assert(a.contains(b.last()));
        let j = choose|j: int| 0 <= j < a.len() && a[j] == b.last();
        if i < b.len() - 1 {
            assert(lex_le(codes(b[i]), codes(b[b.len() - 1])));
            if j < a.len() - 1 {
                assert(lex_le(codes(a[j]), codes(a[a.len() - 1])));
                lemma_lex_total(codes(b.last()), codes(a.last()));
                lemma_codes_injective(b.last(), a.last());
            }
            assert(b[i] != b[b.len() - 1]);
        }
        assert(a.last() == b.last());
        let a0 = a.drop_last();
        let b0 = b.drop_last();
        assert forall|s: Seq<char>| a0.contains(s) <==> b0.contains(s) by {
            if a0.contains(s) {
                let k = choose|k: int| 0 <= k < a0.len() && a0[k] == s;
                assert(a[k] == s && a[k] != a[a.len() - 1]);
                assert(a.contains(s));
                let m = choose|m: int| 0 <= m < b.len() && b[m] == s;
                assert(b0[m] == s);
            }
            if b0.contains(s) {
                let k = choose|k: int| 0 <= k < b0.len() && b0[k] == s;
                assert(b[k] == s && b[k] != b[b.len() - 1]);
                assert(b.contains(s));
                let m = choose|m: int| 0 <= m < a.len() && a[m] == s;
                assert(a0[m] == s);
            }
        }
        law_ascending_unique(a0, b0);
        assert(a =~= a0.push(a.last()));
        assert(b =~= b0.push(b.last()));
    }
}

/// Indices that ascend are told apart by which indices there are.
pub proof fn lemma_ascending_indices(a: Seq<usize>, b: Seq<usize>)
    requires
        forall|i: int, j: int| 0 <= i < j < a.len() ==> a[i] < a[j],
        forall|i: int, j: int| 0 <= i < j < b.len() ==> b[i] < b[j],
        forall|x: usize| #[trigger] a.contains(x) <==> b.contains(x),
    ensures
        a == b,
    decreases a.len(),
{
    if a.len() == 0 {
        if b.len() > 0 {
            assert(a.contains(b[0]) <==> b.contains(b[0]));
        }
        assert(a =~= b);
    } else {
        assert(a.contains(a.last()));
        assert(b.contains(a.last()));
        assert(b.contains(b.last()));
        assert(a.contains(b.last()));
        assert(a.last() == b.last());
        let p = a.drop_last();
        let q = b.drop_last();
        assert forall|x: usize| #[trigger] p.contains(x) <==> q.contains(x) by {
            if p.contains(x) {
                let i = choose|i: int| 0 <= i < p.len() && p[i] == x;
                assert(a[i] == x);
                assert(a.contains(x) && x < a.last());
                let j = choose|j: int| 0 <= j < b.len() && b[j] == x;
                assert(q[j] == x);
            }
            if q.contains(x) {
                let i = choose|i: int| 0 <= i < q.len() && q[i] == x;
                assert(b[i] == x);
                assert(b.contains(x) && x < b.last());
                assert(a.contains(x));
                let j = choose|j: int| 0 <= j < a.len() && a[j] == x;
                assert(p[j] == x);
            }
        }
        lemma_ascending_indices(p, q);
        assert(a =~= p.push(a.last()));
        assert(b =~= q.push(b.last()));
    }
}

/// What is put in an order has the same items, each as often.
pub proof fn lemma_reordered_multiset<T>(s: Seq<T>, order: Seq<usize>)
    requires
        s.len() <= usize::MAX,
        is_permutation(order, s.len() as int),
    ensures
        Seq::new(s.len(), |i: int| s[order[i] as int]).to_multiset() == s.to_multiset(),
    decreases s.len(),
{
    broadcast use vstd::seq_lib::group_to_multiset_ensures;

    let n = s.len() as int;
    let r = Seq::new(s.len(), |i: int| s[order[i] as int]);
    if n > 0 {
        let last = (n - 1) as usize;
        assert(order.contains((n - 1) as usize));
        let k = choose|k: int| 0 <= k < order.len() && order[k] == last;
        let rest = order.remove(k);
        let t = s.drop_last();
        assert forall|a: int| 0 <= a < n - 1 implies #[trigger] rest[a] < n - 1 by {
            let b = if a < k {
                a
            } else {
                a + 1
            };
            assert(rest[a] == order[b]);
            assert(order[b] != order[k]);
        }
        assert forall|a: int, b: int| 0 <= a < b < n - 1 implies rest[a] != rest[b] by {
            let x = if a < k {
                a
            } else {
                a + 1
            };
            let y = if b < k {
                b
            } else {
                b + 1
            };
            assert(order[x] != order[y]);
        }
        assert forall|i: int| 0 <= i < n - 1 implies rest.contains(#[trigger] (i as usize)) by {
            assert(order.contains(i as usize));
            let b = choose|b: int| 0 <= b < order.len() && order[b] == i as usize;
            if b < k {
                assert(rest[b] == i as usize);
            } else {
                assert(rest[b - 1] == i as usize);
            }
        }
        lemma_reordered_multiset(t, rest);
        let q = Seq::new(t.len(), |i: int| t[rest[i] as int]);
        assert(q =~= r.remove(k));
        assert(r[k] == s.last());
        assert(r.to_multiset().remove(r[k]) =~= q.to_multiset());
        assert(r.to_multiset() =~= q.to_multiset().insert(s.last()));
        assert(s =~= t.push(s.last()));
        assert(s.to_multiset() =~= t.to_multiset().insert(s.last()));
    } else {
        assert(r =~= s);
    }
}

/// Keys compare by their first difference: the smaller number there comes first, and a key
/// comes before every key that goes on after it.
pub proof fn law_lexicographic(a: Seq<i64>, b: Seq<i64>, k: int)
    requires
        0 <= k <= a.len(),
        k <= b.len(),
        forall|i: int| 0 <= i < k ==> a[i] == b[i],
    ensures
        k < a.len() && k < b.len() && a[k] < b[k] ==> lex_le(a, b) && !lex_le(b, a),
        k == a.len() ==> lex_le(a, b),
        k == a.len() && k < b.len() ==> !lex_le(b, a),
    decreases k,
{
    if k > 0 {
        law_lexicographic(a.drop_first(), b.drop_first(), k - 1);
    }
}

} // verus!
