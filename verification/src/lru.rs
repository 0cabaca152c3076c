//! A cache that keeps what was used last.

use vstd::prelude::*;
use vstd::string::*;
use crate::text::same_text;

verus! {

/// How many per-font classifiers are kept in memory.
pub const PER_FONT_CACHE_DEFAULT_CAPACITY: usize = 16;

/// A cached value with its key.
pub struct LruEntry<T> {
    pub key: String,
    pub value: T,
}

/// A bounded cache. The entries stand from the one that was used longest ago to the one
/// that was used last.
pub struct PerFontLruCache<T> {
    pub entries: Vec<LruEntry<T>>,
    pub capacity: usize,
    pub hits: u64,
    pub misses: u64,
}

impl<T> LruEntry<T> {
    pub open spec fn pair(&self) -> (Seq<char>, T) {
        (self.key@, self.value)
    }
}

/// The keys and values of entries.
pub open spec fn pairs<T>(v: Seq<LruEntry<T>>) -> Seq<(Seq<char>, T)> {
    Seq::new(v.len(), |i: int| v[i].pair())
}

/// No key occurs twice.
pub open spec fn distinct_keys<T>(s: Seq<(Seq<char>, T)>) -> bool {
    forall|i: int, j: int| 0 <= i < j < s.len() ==> (#[trigger] s[i]).0 != (#[trigger] s[j]).0
}

/// Where a key stands.
pub open spec fn key_at<T>(s: Seq<(Seq<char>, T)>, key: Seq<char>, i: int) -> bool {
    0 <= i < s.len() && s[i].0 == key
}

/// A key is cached.
pub open spec fn has_key<T>(s: Seq<(Seq<char>, T)>, key: Seq<char>) -> bool {
    exists|i: int| #[trigger] key_at(s, key, i)
}

/// How many entries stay when one is added to `n`: all, as long as there is room.
pub open spec fn kept(n: int, capacity: int) -> int {
    if n < capacity {
        n
    } else if capacity <= 0 {
        0
    } else {
        capacity - 1
    }
}

impl<T> View for PerFontLruCache<T> {
    type V = Seq<(Seq<char>, T)>;

    open spec fn view(&self) -> Seq<(Seq<char>, T)> {
        pairs(self.entries@)
    }
}

impl<T> PerFontLruCache<T> {
    /// No key occurs twice, and there are no more entries than the capacity; with no
    /// capacity at all one entry is kept.
    pub open spec fn wf(&self) -> bool {
        &&& distinct_keys(self@)
        &&& self@.len() <= self.capacity || self@.len() <= 1
    }

    pub fn new(capacity: usize) -> (c: PerFontLruCache<T>)
        ensures
            c.wf(),
            c@.len() == 0,
            c.capacity == capacity,
            c.hits == 0,
            c.misses == 0,
    {
        PerFontLruCache { entries: Vec::new(), capacity, hits: 0, misses: 0 }
    }

    fn position(&self, key: &str) -> (r: Option<usize>)
        ensures
            r is None <==> !has_key(self@, key@),
            r is Some ==> key_at(self@, key@, r->0 as int),
    {
        let n: usize = self.entries.len();
        for i in 0..n
            invariant
                n == self.entries@.len(),
                forall|j: int| 0 <= j < i ==> !#[trigger] key_at(self@, key@, j),
        {
            if same_text(self.entries[i].key.as_str(), key) {
                assert(key_at(self@, key@, i as int));
                return Some(i);
            }
            assert(!key_at(self@, key@, i as int));
        }
        None
    }

    /// Looks up a key, which makes it the one that was used last, and counts whether it
    /// was there.
    pub fn get(&mut self, key: &str) -> (r: Option<&T>)
        requires
            old(self).wf(),
            old(self).hits < u64::MAX,
            old(self).misses < u64::MAX,
        ensures
            final(self).wf(),
            final(self).capacity == old(self).capacity,
            r is Some <==> has_key(old(self)@, key@),
            forall|i: int| #[trigger]
                key_at(old(self)@, key@, i) ==> *(r->0) == old(self)@[i].1 && final(self)@ == old(self)@.remove(i).push(old(self)@[i]) && final(self).hits == old(self).hits + 1
                    && final(self).misses == old(self).misses,
            r is None ==> final(self)@ == old(self)@ && final(self).hits == old(self).hits && final(self).misses == old(self).misses + 1,
    {
        match self.position(key) {
            None => {
                self.misses = self.misses + 1;
                None
            },
            Some(p) => {
                let ghost before = self@;
                let e: LruEntry<T> = self.entries.remove(p);
                self.entries.push(e);
                self.hits = self.hits + 1;
                proof {
                    assert(self@ =~= before.remove(p as int).push(before[p as int]));
                    assert forall|i: int| #[trigger] key_at(before, key@, i) implies i == p by {
                        assert(key_at(before, key@, p as int));
                        if i < p {
                            assert(before[i].0 != before[p as int].0);
                        } else if p < i {
                            assert(before[p as int].0 != before[i].0);
                        }
                    }
                    lemma_move_distinct(before, p as int, before[p as int]);
                }
                let n: usize = self.entries.len();
                assert(self@[n - 1] == before[p as int]);
                Some(&self.entries[n - 1].value)
            },
        }
    }

    /// Stores a value, as the one that was used last. Where the key is new and there is no
    /// room, those that were used longest ago go.
    pub fn put(&mut self, key: String, value: T)
        requires
            old(self).wf(),
        ensures
            final(self).wf(),
            final(self).capacity == old(self).capacity,
            final(self).hits == old(self).hits,
            final(self).misses == old(self).misses,
            forall|i: int| #[trigger]
                key_at(old(self)@, key@, i) ==> final(self)@ == old(self)@.remove(i).push(
                    (key@, value),
                ),
            !has_key(old(self)@, key@) ==> final(self)@ == old(self)@.skip(
                old(self)@.len() - kept(old(self)@.len() as int, old(self).capacity as int),
            ).push((key@, value)),
    {
        let ghost before = self@;
        let ghost name = key@;
        match self.position(key.as_str()) {
            Some(p) => {
                let e: LruEntry<T> = self.entries.remove(p);
                self.entries.push(LruEntry { key, value });
                proof {
                    assert(self@ =~= before.remove(p as int).push((name, value)));
                    assert forall|i: int| #[trigger] key_at(before, name, i) implies i == p by {
                        assert(key_at(before, name, p as int));
                        if i < p {
                            assert(before[i].0 != before[p as int].0);
                        } else if p < i {
                            assert(before[p as int].0 != before[i].0);
                        }
                    }
                    lemma_move_distinct(before, p as int, (name, value));
                }
            },
            None => {
                let ghost mut gone: int = 0;
                assert(before.skip(0) =~= before);
                while self.entries.len() >= self.capacity && self.entries.len() > 0
                    invariant
                        0 <= gone <= before.len(),
                        self@ == before.skip(gone),
                        self.entries@.len() == before.len() - gone,
                        self.capacity == old(self).capacity,
                        self.hits == old(self).hits,
                        self.misses == old(self).misses,
                        gone > 0 ==> before.len() - gone + 1 >= self.capacity,
                    decreases self.entries@.len(),
                {
                    let ghost now = self@;
                    let e: LruEntry<T> = self.entries.remove(0);
                    proof {
                        assert(self@ =~= now.skip(1));
                        gone = gone + 1;
                        assert(self@ =~= before.skip(gone));
                    }
                }
                assert(before.len() - gone == kept(before.len() as int, self.capacity as int));
                self.entries.push(LruEntry { key, value });
                proof {
                    assert(self@ =~= before.skip(gone).push((name, value)));
                    assert forall|i: int, j: int| 0 <= i < j < self@.len() implies (#[trigger] self@[i]).0
                        != (#[trigger] self@[j]).0 by {
                        if j == self@.len() - 1 {
                            assert(self@[i] == before[gone + i]);
                            assert(!key_at(before, name, gone + i));
                        } else {
                            assert(self@[i] == before[gone + i] && self@[j] == before[gone + j]);
                        }
                    }
                }
            },
        }
    }

    /// How many entries there are.
    pub fn len(&self) -> (n: usize)
        ensures
            n == self@.len(),
    {
        self.entries.len()
    }

    /// How many lookups found their key, and how many did not.
    pub fn stats(&self) -> (s: (u64, u64))
        ensures
            s == (self.hits, self.misses),
    {
        (self.hits, self.misses)
    }
}

/// To move an entry to the end keeps the keys apart.
proof fn lemma_move_distinct<T>(s: Seq<(Seq<char>, T)>, p: int, e: (Seq<char>, T))
    requires
        distinct_keys(s),
        0 <= p < s.len(),
        e.0 == s[p].0,
    ensures
        distinct_keys(s.remove(p).push(e)),
{
    let t = s.remove(p).push(e);
    assert forall|i: int, j: int| 0 <= i < j < t.len() implies (#[trigger] t[i]).0 != (
    #[trigger] t[j]).0 by {
        let a = if i < p {
            i
        } else {
            i + 1
        };
        let b = if j == t.len() - 1 {
            p
        } else if j < p {
            j
        } else {
            j + 1
        };
        assert(t[i] == s[a]);
        assert(t[j].0 == s[b].0);
        if a < b {
            assert(s[a].0 != s[b].0);
        } else {
            assert(s[b].0 != s[a].0);
        }
    }
}

/// What a store leaves behind: the key that was stored comes last with its value, and with
/// a capacity of two or more what was used before it is still there.
pub proof fn law_put_keeps_recent<T>(
    before: Seq<(Seq<char>, T)>,
    capacity: int,
    key: Seq<char>,
    value: T,
)
    requires
        !has_key(before, key),
        0 < before.len() <= capacity,
    ensures
        ({
            let after = before.skip(before.len() - kept(before.len() as int, capacity)).push(
                (key, value),
            );
            &&& after.last() == (key, value)
            &&& after.len() <= capacity
            &&& capacity >= 2 ==> after[after.len() - 2] == before.last()
            &&& before.len() < capacity ==> after == before.push((key, value))
        }),
{
    if before.len() < capacity {
        assert(before.skip(0) =~= before);
    }
}

/// A store of a new key drops entries from the front alone, as few as make room: what is left
/// is the end of what was there, with the new entry behind it. One more entry would not fit.
pub proof fn law_put_drops_oldest<T>(
    before: Seq<(Seq<char>, T)>,
    capacity: int,
    entry: (Seq<char>, T),
)
    requires
        0 <= capacity,
    ensures
        ({
            let gone = before.len() - kept(before.len() as int, capacity);
            let after = before.skip(gone).push(entry);
            &&& 0 <= gone <= before.len()
            &&& after.last() == entry
            &&& after.len() == before.len() - gone + 1
            &&& after.len() <= capacity || after.len() == 1
            &&& gone > 0 ==> after.len() + 1 > capacity
            &&& forall|i: int|
                gone <= i < before.len() ==> after[i - gone] == #[trigger] before[i]
        }),
{
}


} // verus!
