//! A map keyed by character sequences, kept in ascending order of the keys.

use vstd::prelude::*;
use crate::sorting::{
    codes, codes_of, lemma_codes_injective, lemma_lex_total, lemma_lex_trans, lex_at_most, lex_le,
    strictly_ascending,
};
use crate::text::{same_chars, views};

verus! {

/// `a` comes before `b` and differs from it.
pub open spec fn key_before(a: Seq<char>, b: Seq<char>) -> bool {
    lex_le(codes(a), codes(b)) && a != b
}

/// A map from character sequences.
pub struct SeqMap<T> {
    pub keys: Vec<Vec<char>>,
    pub values: Vec<T>,
}

/// The position of a key.
pub open spec fn position(keys: Seq<Seq<char>>, key: Seq<char>) -> int {
    choose|i: int| 0 <= i < keys.len() && keys[i] == key
}

impl<T> View for SeqMap<T> {
    type V = Map<Seq<char>, T>;

    open spec fn view(&self) -> Map<Seq<char>, T> {
        Map::new(
            |k: Seq<char>| views(self.keys@).contains(k),
            |k: Seq<char>| self.values@[position(views(self.keys@), k)],
        )
    }
}

impl<T> SeqMap<T> {
    /// Each key has a value, and the keys ascend.
    pub open spec fn wf(&self) -> bool {
        self.keys@.len() == self.values@.len() && strictly_ascending(views(self.keys@))
    }

    /// The value at a position belongs to the key there.
    pub proof fn lemma_entry(&self, i: int)
        requires
            self.wf(),
            0 <= i < self.keys@.len(),
        ensures
            self@.dom().contains(self.keys@[i]@),
            self@[self.keys@[i]@] == self.values@[i],
            position(views(self.keys@), self.keys@[i]@) == i,
    {
        let v = views(self.keys@);
        let k = v[i];
        assert(v[i] == k);
        assert(v.contains(k));
        let p = position(v, k);
        assert(0 <= p < v.len() && v[p] == k);
        if p < i {
            assert(v[p] != v[i]);
        } else if i < p {
            assert(v[i] != v[p]);
        }
    }

    pub fn new() -> (m: SeqMap<T>)
        ensures
            m.wf(),
            m@ == Map::<Seq<char>, T>::empty(),
            m.keys@.len() == 0,
    {
        let m = SeqMap { keys: Vec::new(), values: Vec::new() };
        assert(m@ =~= Map::<Seq<char>, T>::empty());
        m
    }

    /// The position from which on the keys are not before `key`.
    fn slot(&self, key: &Vec<char>) -> (k: usize)
        requires
            self.wf(),
        ensures
            k <= self.keys@.len(),
            forall|i: int| 0 <= i < k ==> key_before((#[trigger] self.keys@[i])@, key@),
            forall|i: int|
                k <= i < self.keys@.len() ==> lex_le(
                    codes(key@),
                    codes((#[trigger] self.keys@[i])@),
                ),
    {
        let goal: Vec<i64> = codes_of(key);
        let n: usize = self.keys.len();
        let mut k: usize = n;
        while k > 0
            invariant
                self.wf(),
                n == self.keys@.len(),
                k <= n,
                goal@ == codes(key@),
                forall|i: int|
                    k <= i < n ==> lex_le(codes(key@), codes((#[trigger] self.keys@[i])@)),
            decreases k,
        {
            let here: Vec<i64> = codes_of(&self.keys[k - 1]);
            if !lex_at_most(&goal, &here) {
                proof {
                    let v = views(self.keys@);
                    lemma_lex_total(codes(key@), codes(v[k - 1]));
                    assert forall|i: int| 0 <= i < k implies key_before(
                        (#[trigger] self.keys@[i])@,
                        key@,
                    ) by {
                        assert(v[i] == self.keys@[i]@);
                        if i < k - 1 {
                            assert(lex_le(codes(v[i]), codes(v[k - 1])));
                            lemma_lex_trans(codes(v[i]), codes(v[k - 1]), codes(key@));
                            if v[i] == key@ {
                                lemma_lex_total(codes(v[i]), codes(v[k - 1]));
                                assert(false);
                            }
                        } else {
                            if v[i] == key@ {
                                lemma_lex_total(codes(key@), codes(key@));
                            }
                        }
                    }
                }
                return k;
            }
            k = k - 1;
        }
        0
    }

    /// The value of a key.
    pub fn get(&self, key: &Vec<char>) -> (r: Option<&T>)
        requires
            self.wf(),
        ensures
            r is Some <==> self@.dom().contains(key@),
            r is Some ==> *(r->0) == self@[key@],
    {
        match self.find(key) {
            Some(i) => {
                proof {
                    self.lemma_entry(i as int);
                }
                Some(&self.values[i])
            },
            None => None,
        }
    }

    /// The position of a key.
    pub fn find(&self, key: &Vec<char>) -> (r: Option<usize>)
        requires
            self.wf(),
        ensures
            r is Some <==> self@.dom().contains(key@),
            r is Some ==> r->0 < self.keys@.len() && self.keys@[r->0 as int]@ == key@,
    {
        let k: usize = self.slot(key);
        if k < self.keys.len() && same_chars(&self.keys[k], key) {
            proof {
                self.lemma_entry(k as int);
            }
            Some(k)
        } else {
            proof {
                let v = views(self.keys@);
                if v.contains(key@) {
                    let i = choose|i: int| 0 <= i < v.len() && v[i] == key@;
                    assert(self.keys@[i]@ == key@);
                    assert(i >= k);
                    if i > k {
                        assert(lex_le(codes(v[k as int]), codes(v[i])) && v[k as int] != v[i]);
                        assert(lex_le(codes(key@), codes(self.keys@[k as int]@)));
                        lemma_lex_total(codes(key@), codes(v[k as int]));
                        lemma_codes_injective(key@, v[k as int]);
                    }
                }
            }
            None
        }
    }

    /// Sets the value of a key.
    pub fn insert(&mut self, key: Vec<char>, value: T)
        requires
            old(self).wf(),
        ensures
            final(self).wf(),
            final(self)@ == old(self)@.insert(key@, value),
            (forall|i: int|
                0 <= i < old(self).keys@.len() ==> key_before(
                    (#[trigger] old(self).keys@[i])@,
                    key@,
                )) ==> views(final(self).keys@) == views(old(self).keys@).push(key@)
                && final(self).values@ == old(self).values@.push(value),
    {
        let ghost kv = views(self.keys@);
        let ghost old_map = self@;
        let ghost vals = self.values@;
        let ghost name = key@;
        let n: usize = self.keys.len();
        let k: usize = self.slot(&key);
        if k < n && same_chars(&self.keys[k], &key) {
            self.values.set(k, value);
            proof {
                assert(views(self.keys@) == kv);
                assert(kv[k as int] == name);
                self.lemma_entry(k as int);
                assert forall|s: Seq<char>| kv.contains(s) && s != name implies #[trigger] self@[s]
                    == old_map[s] by {
                    let i = choose|i: int| 0 <= i < kv.len() && kv[i] == s;
                    assert(self.keys@[i]@ == s);
                    self.lemma_entry(i);
                }
                assert(self@ =~= old_map.insert(name, value));
            }
        } else {
            self.keys.insert(k, key);
            self.values.insert(k, value);
            proof {
                let nv = views(self.keys@);
                assert(nv =~= kv.insert(k as int, name));
                assert forall|i: int, j: int| 0 <= i < j < nv.len() implies lex_le(
                    codes(#[trigger] nv[i]),
                    codes(#[trigger] nv[j]),
                ) && nv[i] != nv[j] by {
                    let i0 = if i < k {
                        i
                    } else {
                        i - 1
                    };
                    let j0 = if j < k {
                        j
                    } else {
                        j - 1
                    };
                    if i == k {
                        assert(nv[j] == kv[j - 1]);
                        assert(lex_le(codes(name), codes(old(self).keys@[j - 1]@)));
                        if kv[j - 1] == name {
                            if j - 1 > k {
                                assert(lex_le(codes(kv[k as int]), codes(kv[j - 1])) && kv[k as int]
                                    != kv[j - 1]);
                                assert(lex_le(codes(name), codes(old(self).keys@[k as int]@)));
                                lemma_lex_total(codes(name), codes(kv[k as int]));
                                lemma_codes_injective(name, kv[k as int]);
                            }
                            assert(old(self).keys@[k as int]@ == name);
                        }
                    } else if j == k {
                        assert(nv[i] == kv[i]);
                        assert(key_before(old(self).keys@[i]@, name));
                    } else {
                        assert(nv[i] == kv[i0] && nv[j] == kv[j0]);
                    }
                }
                assert(self.wf());
                assert(nv[k as int] == name);
                self.lemma_entry(k as int);
                assert forall|s: Seq<char>| nv.contains(s) <==> kv.contains(s) || s == name by {
                    if nv.contains(s) {
                        let i = choose|i: int| 0 <= i < nv.len() && nv[i] == s;
                        if i < k {
                            assert(kv[i] == s);
                        } else if i > k {
                            assert(kv[i - 1] == s);
                        }
                    }
                    if kv.contains(s) {
                        let i = choose|i: int| 0 <= i < kv.len() && kv[i] == s;
                        if i < k {
                            assert(nv[i] == s);
                        } else {
                            assert(nv[i + 1] == s);
                        }
                    }
                }
                assert forall|s: Seq<char>| kv.contains(s) && s != name implies #[trigger] self@[s]
                    == old_map[s] by {
                    let i = choose|i: int| 0 <= i < kv.len() && kv[i] == s;
                    assert(old(self).keys@[i]@ == s);
                    old(self).lemma_entry(i);
                    if i < k {
                        assert(nv[i] == s);
                        assert(self.keys@[i]@ == s);
                        self.lemma_entry(i);
                    } else {
                        assert(nv[i + 1] == s);
                        assert(self.keys@[i + 1]@ == s);
                        self.lemma_entry(i + 1);
                    }
                }
                assert(self@ =~= old_map.insert(name, value));
            }
        }
        proof {
            if forall|i: int|
                0 <= i < old(self).keys@.len() ==> key_before(
                    (#[trigger] old(self).keys@[i])@,
                    name,
                ) {
                if k < n {
                    assert(key_before(old(self).keys@[k as int]@, name));
                    lemma_lex_total(codes(old(self).keys@[k as int]@), codes(name));
                    lemma_codes_injective(old(self).keys@[k as int]@, name);
                }
                assert(views(self.keys@) =~= kv.push(name));
                assert(self.values@ =~= vals.push(value));
            }
        }
    }

    /// How many keys there are.
    pub fn len(&self) -> (n: usize)
        requires
            self.wf(),
        ensures
            n == self.keys@.len(),
    {
        self.keys.len()
    }
}

} // verus!
