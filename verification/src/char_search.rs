//! Finding fonts in the character index by the distances of their feature vectors.

use vstd::prelude::*;
use vstd::string::*;
use crate::char_index::{
    char_row, font_row, font_rows, fonts_of, lemma_slot_at, lemma_slot, CharIndex, FontRow,
    CROSSING_BINS,
};
use crate::glyph::{is_ink, measure, GlyphStats};
use crate::raster::GrayImage;
use crate::counting::tally;
use crate::float_bits::{float_key, is_at_least, key_of, reaches, INF};
use crate::sorting::{is_stable_order, key_views, stable_order};
use crate::text::{chars_of, copy_of, same_text};

verus! {

/// Characters that tell fonts apart well, badly, and fairly.
pub open spec fn weight_tenths(c: char) -> u32 {
    if "gaeRQGSfty&@"@.contains(c) {
        15
    } else if "Il1|!.,:;-"@.contains(c) {
        5
    } else if "bdpqnuocOCD"@.contains(c) {
        8
    } else if "kwxzABEFKMNW"@.contains(c) {
        12
    } else {
        10
    }
}

fn in_list(list: &str, c: char) -> (r: bool)
    ensures
        r == list@.contains(c),
{
    let v: Vec<char> = chars_of(list);
    let n: usize = v.len();
    for i in 0..n
        invariant
            n == v@.len(),
            v@ == list@,
            forall|k: int| 0 <= k < i ==> #[trigger] v@[k] != c,
    {
        if v[i] == c {
            assert(v@[i as int] == c);
            return true;
        }
    }
    false
}

/// How much a character counts, in tenths.
pub fn char_weight(c: char) -> (w: u32)
    ensures
        w == weight_tenths(c),
{
    if in_list("gaeRQGSfty&@", c) {
        15
    } else if in_list("Il1|!.,:;-", c) {
        5
    } else if in_list("bdpqnuocOCD", c) {
        8
    } else if in_list("kwxzABEFKMNW", c) {
        12
    } else {
        10
    }
}

// --- Neighbours ---

/// A font and its squared distance.
pub type Hit = (usize, u32);

/// The least distance; the largest finite number where no distance is less.
pub open spec fn is_least(points: Seq<Hit>, m: u32) -> bool {
    &&& m <= 0x7f7f_ffff
    &&& forall|i: int| 0 <= i < points.len() ==> m <= (#[trigger] points[i]).1
    &&& m == 0x7f7f_ffff || exists|i: int| 0 <= i < points.len() && (#[trigger] points[i]).1 == m
}

/// The least distance.
pub fn least_distance(points: &Vec<Hit>) -> (m: u32)
    ensures
        is_least(points@, m),
{
    let n: usize = points.len();
    let mut m: u32 = 0x7f7f_ffff;
    for i in 0..n
        invariant
            n == points@.len(),
            m <= 0x7f7f_ffff,
            forall|k: int| 0 <= k < i ==> m <= (#[trigger] points@[k]).1,
            m == 0x7f7f_ffff || exists|k: int| 0 <= k < n && (#[trigger] points@[k]).1 == m,
    {
        if points[i].1 < m {
            m = points[i].1;
            assert(points@[i as int].1 == m);
        }
    }
    m
}

/// The points among the first `n` that are not farther than `cutoff`.
pub open spec fn close_points(points: Seq<Hit>, cutoff: u32, n: int) -> Seq<Hit>
    decreases n,
{
    if n <= 0 {
        Seq::empty()
    } else if reaches(cutoff, points[n - 1].1) {
        close_points(points, cutoff, n - 1).push(points[n - 1])
    } else {
        close_points(points, cutoff, n - 1)
    }
}

pub open spec fn hit_keys(s: Seq<Hit>) -> Seq<Seq<i64>> {
    Seq::new(s.len(), |i: int| seq![float_key(s[i].1)])
}

pub open spec fn hits_in(s: Seq<Hit>, order: Seq<usize>) -> Seq<Hit> {
    Seq::new(s.len(), |i: int| s[order[i] as int])
}

/// All points that are not farther than `cutoff`, by ascending distance; points at the same
/// distance keep their order.
pub fn nearest_within(points: &Vec<Hit>, cutoff: u32) -> (r: Vec<Hit>)
    ensures
        ({
            let near = close_points(points@, cutoff, points@.len() as int);
            exists|order: Seq<usize>| #[trigger]
                is_stable_order(hit_keys(near), order) && r@ == hits_in(near, order)
        }),
{
    let n: usize = points.len();
    let mut near: Vec<Hit> = Vec::new();
    let mut keys: Vec<Vec<i64>> = Vec::new();
    for i in 0..n
        invariant
            n == points@.len(),
            near@ == close_points(points@, cutoff, i as int),
            keys@.len() == near@.len(),
            forall|k: int| 0 <= k < keys@.len() ==> (#[trigger] keys@[k])@ == seq![float_key(near@[k].1)],
    {
        let p: Hit = points[i];
        if is_at_least(cutoff, p.1) {
            let mut key: Vec<i64> = Vec::new();
            key.push(key_of(p.1));
            assert(key@ =~= seq![float_key(p.1)]);
            near.push(p);
            keys.push(key);
        }
    }
    assert(key_views(keys@) =~= hit_keys(near@));
    let order: Vec<usize> = stable_order(&keys);
    let m: usize = near.len();
    let mut r: Vec<Hit> = Vec::new();
    for i in 0..m
        invariant
            m == near@.len(),
            order@.len() == m,
            forall|a: int| 0 <= a < m ==> #[trigger] order@[a] < m,
            r@.len() == i,
            forall|k: int| 0 <= k < i ==> #[trigger] r@[k] == near@[order@[k] as int],
    {
        r.push(near[order[i]]);
    }
    assert(r@ =~= hits_in(near@, order@));
    r
}

// --- Votes ---

/// The fonts near a character of the line, and how much the character counts.
pub struct CharHits {
    pub weight: u32,
    pub hits: Vec<Hit>,
}

/// The characters of the line that a font is near to: distance and weight of each.
pub struct FontVotes {
    pub font: usize,
    pub votes: Vec<(u32, u32)>,
}

/// The votes for a font from the first `n` hits of a character.
pub open spec fn votes_from(h: CharHits, font: usize, n: int) -> Seq<(u32, u32)>
    decreases n,
{
    if n <= 0 {
        Seq::empty()
    } else if h.hits@[n - 1].0 == font {
        votes_from(h, font, n - 1).push((h.hits@[n - 1].1, h.weight))
    } else {
        votes_from(h, font, n - 1)
    }
}

/// The votes for a font from the first `n` characters.
pub open spec fn votes_for(chars: Seq<CharHits>, font: usize, n: int) -> Seq<(u32, u32)>
    decreases n,
{
    if n <= 0 {
        Seq::empty()
    } else {
        votes_for(chars, font, n - 1) + votes_from(
            chars[n - 1],
            font,
            chars[n - 1].hits@.len() as int,
        )
    }
}

/// The votes of all fonts, by ascending font; fonts without votes are not listed.
pub open spec fn is_ballot(chars: Seq<CharHits>, n: int, b: Seq<FontVotes>) -> bool {
    &&& forall|i: int, j: int|
        0 <= i < j < b.len() ==> (#[trigger] b[i]).font < (#[trigger] b[j]).font
    &&& forall|i: int|
        0 <= i < b.len() ==> (#[trigger] b[i]).votes@ == votes_for(chars, b[i].font, n)
            && b[i].votes@.len() > 0
    &&& forall|f: usize| (#[trigger] votes_for(chars, f, n)).len() > 0 ==> has_row(b, f)
}

pub open spec fn has_row(b: Seq<FontVotes>, f: usize) -> bool {
    exists|i: int| 0 <= i < b.len() && (#[trigger] b[i]).font == f
}

/// The fonts that are listed, and their votes.
pub open spec fn row_votes(b: Seq<FontVotes>, f: usize) -> Seq<(u32, u32)> {
    if has_row(b, f) {
        b[choose|i: int| 0 <= i < b.len() && (#[trigger] b[i]).font == f].votes@
    } else {
        Seq::empty()
    }
}

pub open spec fn rows_ascend(b: Seq<FontVotes>) -> bool {
    forall|i: int, j: int| 0 <= i < j < b.len() ==> (#[trigger] b[i]).font < (#[trigger] b[j]).font
}

pub open spec fn rows_voted(b: Seq<FontVotes>) -> bool {
    forall|i: int| 0 <= i < b.len() ==> (#[trigger] b[i]).votes@.len() > 0
}

proof fn lemma_row(b: Seq<FontVotes>, i: int)
    requires
        rows_ascend(b),
        0 <= i < b.len(),
    ensures
        has_row(b, b[i].font),
        row_votes(b, b[i].font) == b[i].votes@,
{
    let f = b[i].font;
    assert(b[i].font == f);
    let k = choose|k: int| 0 <= k < b.len() && (#[trigger] b[k]).font == f;
    if k < i {
        assert(b[k].font < b[i].font);
    } else if i < k {
        assert(b[i].font < b[k].font);
    }
}

fn copy_votes(v: &Vec<(u32, u32)>) -> (r: Vec<(u32, u32)>)
    ensures
        r@ == v@,
{
    let n: usize = v.len();
    let mut r: Vec<(u32, u32)> = Vec::new();
    for i in 0..n
        invariant
            n == v@.len(),
            r@ == v@.take(i as int),
    {
        r.push(v[i]);
        assert(r@ =~= v@.take(i + 1));
    }
    assert(v@.take(n as int) =~= v@);
    r
}

/// Adds a vote for a font.
fn cast(b: &mut Vec<FontVotes>, font: usize, vote: (u32, u32))
    requires
        rows_ascend(old(b)@),
        rows_voted(old(b)@),
    ensures
        rows_ascend(final(b)@),
        rows_voted(final(b)@),
        row_votes(final(b)@, font) == row_votes(old(b)@, font).push(vote),
        forall|f: usize| f != font ==> #[trigger] row_votes(final(b)@, f) == row_votes(old(b)@, f),
{
    let ghost before = b@;
    let n: usize = b.len();
    let mut k: usize = n;
    while k > 0 && b[k - 1].font > font
        invariant
            b@ == before,
            k <= b@.len(),
            forall|j: int| k <= j < b@.len() ==> (#[trigger] b@[j]).font > font,
        decreases k,
    {
        k = k - 1;
    }
    if k > 0 && b[k - 1].font == font {
        let mut votes: Vec<(u32, u32)> = copy_votes(&b[k - 1].votes);
        votes.push(vote);
        b.set(k - 1, FontVotes { font, votes });
        proof {
            let at = k - 1;
            lemma_row(before, at);
            assert(rows_ascend(b@));
            lemma_row(b@, at);
            assert forall|f: usize| f != font implies #[trigger] row_votes(b@, f) == row_votes(
                before,
                f,
            ) by {
                if has_row(before, f) {
                    let i = choose|i: int| 0 <= i < before.len() && (#[trigger] before[i]).font == f;
                    assert(b@[i].font == f);
                    lemma_row(before, i);
                    lemma_row(b@, i);
                } else if has_row(b@, f) {
                    let i = choose|i: int| 0 <= i < b@.len() && (#[trigger] b@[i]).font == f;
                    assert(before[i].font == f);
                }
            }
        }
    } else {
        let mut votes: Vec<(u32, u32)> = Vec::new();
        votes.push(vote);
        b.insert(k, FontVotes { font, votes });
        proof {
            assert forall|i: int, j: int| 0 <= i < j < b@.len() implies (#[trigger] b@[i]).font < (
            #[trigger] b@[j]).font by {
                let i0 = if i < k {
                    i
                } else {
                    i - 1
                };
                let j0 = if j < k {
                    j
                } else {
                    j - 1
                };
                if i == k {
                    assert(b@[j] == before[j - 1]);
                } else if j == k {
                    assert(b@[i] == before[i]);
                    if i < k - 1 {
                        assert(before[i].font < before[k - 1].font);
                    }
                } else {
                    assert(b@[i] == before[i0] && b@[j] == before[j0]);
                }
            }
            assert forall|i: int| 0 <= i < b@.len() implies (#[trigger] b@[i]).votes@.len() > 0 by {
                if i < k {
                    assert(b@[i] == before[i]);
                } else if i > k {
                    assert(b@[i] == before[i - 1]);
                }
            }
            assert(!has_row(before, font)) by {
                if has_row(before, font) {
                    let i = choose|i: int|
                        0 <= i < before.len() && (#[trigger] before[i]).font == font;
                    if i < k - 1 {
                        assert(before[i].font < before[k - 1].font);
                    }
                }
            }
            lemma_row(b@, k as int);
            assert(row_votes(b@, font) =~= Seq::<(u32, u32)>::empty().push(vote));
            assert forall|f: usize| f != font implies #[trigger] row_votes(b@, f) == row_votes(
                before,
                f,
            ) by {
                if has_row(before, f) {
                    let i = choose|i: int| 0 <= i < before.len() && (#[trigger] before[i]).font == f;
                    let m = if i < k {
                        i
                    } else {
                        i + 1
                    };
                    assert(b@[m] == before[i]);
                    lemma_row(before, i);
                    lemma_row(b@, m);
                } else if has_row(b@, f) {
                    let i = choose|i: int| 0 <= i < b@.len() && (#[trigger] b@[i]).font == f;
                    let m = if i < k {
                        i
                    } else {
                        i - 1
                    };
                    assert(i != k);
                    assert(before[m].font == f);
                }
            }
        }
    }
}

/// Collects the votes of all fonts.
pub fn tally_votes(chars: &Vec<CharHits>) -> (b: Vec<FontVotes>)
    ensures
        is_ballot(chars@, chars@.len() as int, b@),
{
    let n: usize = chars.len();
    let mut b: Vec<FontVotes> = Vec::new();
    assert forall|f: usize| #[trigger] row_votes(b@, f) == votes_for(chars@, f, 0) by {
        assert(row_votes(b@, f) =~= votes_for(chars@, f, 0));
    }
    for i in 0..n
        invariant
            n == chars@.len(),
            rows_ascend(b@),
            rows_voted(b@),
            forall|f: usize| #[trigger] row_votes(b@, f) == votes_for(chars@, f, i as int),
    {
        let h: &CharHits = &chars[i];
        let m: usize = h.hits.len();
        let ghost start = b@;
        assert forall|f: usize| #[trigger] row_votes(b@, f) == votes_for(chars@, f, i as int)
            + votes_from(*h, f, 0) by {
            assert(votes_for(chars@, f, i as int) + votes_from(*h, f, 0) =~= votes_for(
                chars@,
                f,
                i as int,
            ));
        }
        for k in 0..m
            invariant
                m == h.hits@.len(),
                rows_ascend(b@),
                rows_voted(b@),
                forall|f: usize| #[trigger]
                    row_votes(b@, f) == votes_for(chars@, f, i as int) + votes_from(
                        *h,
                        f,
                        k as int,
                    ),
        {
            let hit: Hit = h.hits[k];
            let ghost before = b@;
            cast(&mut b, hit.0, (hit.1, h.weight));
            assert forall|f: usize| #[trigger] row_votes(b@, f) == votes_for(chars@, f, i as int)
                + votes_from(*h, f, k + 1) by {
                assert(row_votes(before, f) == votes_for(chars@, f, i as int) + votes_from(
                    *h,
                    f,
                    k as int,
                ));
                if f == hit.0 {
                    assert(row_votes(b@, f) =~= votes_for(chars@, f, i as int) + votes_from(
                        *h,
                        f,
                        k + 1,
                    ));
                }
            }
        }
        assert forall|f: usize| #[trigger] row_votes(b@, f) == votes_for(chars@, f, i + 1) by {}
    }
    proof {
        assert forall|i: int| 0 <= i < b@.len() implies (#[trigger] b@[i]).votes@ == votes_for(
            chars@,
            b@[i].font,
            n as int,
        ) && b@[i].votes@.len() > 0 by {
            lemma_row(b@, i);
        }
        assert forall|f: usize| (#[trigger] votes_for(chars@, f, n as int)).len() > 0 implies has_row(
            b@,
            f,
        ) by {
            assert(row_votes(b@, f) == votes_for(chars@, f, n as int));
        }
    }
    b
}

/// Half of the characters, rounded up, and at least one.
pub open spec fn half_of(n: int) -> int {
    if n <= 1 {
        1
    } else {
        (n + 1) / 2
    }
}

/// How many characters a font has to be near to, before the number is scaled: half of them,
/// rounded up, and at least one.
pub fn quorum_base(n_chars: usize) -> (q: usize)
    ensures
        q == half_of(n_chars as int),
        q == (if n_chars <= 1 {
            1
        } else {
            (n_chars + 1) / 2
        }),
{
    if n_chars <= 1 {
        1
    } else {
        n_chars / 2 + n_chars % 2
    }
}

/// The fonts among the first `n` that have enough votes and a name.
pub open spec fn quorate(b: Seq<FontVotes>, quorum: int, names: int, n: int) -> Seq<usize>
    decreases n,
{
    if n <= 0 {
        Seq::empty()
    } else if b[n - 1].votes@.len() >= quorum && b[n - 1].font < names {
        quorate(b, quorum, names, n - 1).push((n - 1) as usize)
    } else {
        quorate(b, quorum, names, n - 1)
    }
}

/// Which fonts have enough votes and a name.
pub fn fonts_with_quorum(b: &Vec<FontVotes>, quorum: usize, names: usize) -> (r: Vec<usize>)
    ensures
        r@ == quorate(b@, quorum as int, names as int, b@.len() as int),
{
    let n: usize = b.len();
    let mut r: Vec<usize> = Vec::new();
    for i in 0..n
        invariant
            n == b@.len(),
            r@ == quorate(b@, quorum as int, names as int, i as int),
    {
        if b[i].votes.len() >= quorum && b[i].font < names {
            r.push(i);
        }
    }
    r
}

/// A font is kept exactly if it has at least as many votes as the quorum asks for and has a
/// name. The kept fonts stand in their order, each once, whatever other fonts there are.
pub proof fn law_quorum(b: Seq<FontVotes>, quorum: int, names: int)
    requires
        b.len() <= usize::MAX,
    ensures
        forall|i: usize| #[trigger]
            quorate(b, quorum, names, b.len() as int).contains(i) <==> i < b.len()
                && b[i as int].font < names && b[i as int].votes@.len() >= quorum,
        forall|k: int, l: int|
            0 <= k < l < quorate(b, quorum, names, b.len() as int).len() ==> quorate(
                b,
                quorum,
                names,
                b.len() as int,
            )[k] < quorate(b, quorum, names, b.len() as int)[l],
{
    lemma_quorate(b, quorum, names, b.len() as int);
}

/// More votes never cost a font its place, and a lower quorum never loses a font.
pub proof fn law_quorum_monotone(
    few: Seq<FontVotes>,
    many: Seq<FontVotes>,
    quorum: int,
    lower: int,
    names: int,
    i: usize,
)
    requires
        few.len() <= usize::MAX,
        many.len() == few.len(),
        lower <= quorum,
        i < few.len(),
        many[i as int].font == few[i as int].font,
        many[i as int].votes@.len() >= few[i as int].votes@.len(),
        quorate(few, quorum, names, few.len() as int).contains(i),
    ensures
        quorate(many, lower, names, many.len() as int).contains(i),
{
    law_quorum(few, quorum, names);
    law_quorum(many, lower, names);
}

proof fn lemma_quorate(b: Seq<FontVotes>, quorum: int, names: int, n: int)
    requires
        0 <= n <= b.len() <= usize::MAX,
    ensures
        forall|i: usize| #[trigger]
            quorate(b, quorum, names, n).contains(i) <==> i < n && b[i as int].font < names
                && b[i as int].votes@.len() >= quorum,
        forall|k: int, l: int|
            0 <= k < l < quorate(b, quorum, names, n).len() ==> quorate(b, quorum, names, n)[k]
                < quorate(b, quorum, names, n)[l],
    decreases n,
{
    if n > 0 {
        lemma_quorate(b, quorum, names, n - 1);
        let before = quorate(b, quorum, names, n - 1);
        let s = quorate(b, quorum, names, n);
        assert forall|i: usize| #[trigger] s.contains(i) <==> i < n && b[i as int].font < names
            && b[i as int].votes@.len() >= quorum by {
            if before.contains(i) {
                let k = choose|k: int| 0 <= k < before.len() && before[k] == i;
                assert(s[k] == i);
            }
            if i == n - 1 && s != before {
                assert(s[before.len() as int] == i);
            }
            if s.contains(i) && i != n - 1 {
                let k = choose|k: int| 0 <= k < s.len() && s[k] == i;
                assert(before[k] == i);
            }
        }
        assert forall|k: int, l: int| 0 <= k < l < s.len() implies s[k] < s[l] by {
            assert(before.contains(before[k]));
            if l < before.len() {
                assert(before[l] == s[l]);
            }
        }
    }
}

// --- Ranking ---

/// A font name with its score; the higher the better.
pub struct NamedScore {
    pub name: String,
    pub score: u32,
}

pub open spec fn named(v: Seq<NamedScore>) -> Seq<(Seq<char>, u32)> {
    Seq::new(v.len(), |i: int| (v[i].name@, v[i].score))
}

/// What a font is ranked by: first the higher score, then whether it stands for itself and
/// not for a variant, whose name has a bracket.
pub open spec fn name_rank(p: (Seq<char>, u32)) -> Seq<i64> {
    seq![
        -float_key(p.1) as i64,
        if p.0.contains('[') {
            1i64
        } else {
            0i64
        },
    ]
}

pub open spec fn name_ranks(s: Seq<(Seq<char>, u32)>) -> Seq<Seq<i64>> {
    Seq::new(s.len(), |i: int| name_rank(s[i]))
}

pub open spec fn names_in(s: Seq<(Seq<char>, u32)>, order: Seq<usize>) -> Seq<(Seq<char>, u32)> {
    Seq::new(s.len(), |i: int| s[order[i] as int])
}

/// The score is a number.
pub open spec fn is_finite(b: u32) -> bool {
    b % 0x8000_0000 < INF
}

/// The fonts among the first `n` whose score is a number.
pub open spec fn finite_only(s: Seq<(Seq<char>, u32)>, n: int) -> Seq<(Seq<char>, u32)>
    decreases n,
{
    if n <= 0 {
        Seq::empty()
    } else if is_finite(s[n - 1].1) {
        finite_only(s, n - 1).push(s[n - 1])
    } else {
        finite_only(s, n - 1)
    }
}

fn rank_of_name(f: &NamedScore) -> (key: Vec<i64>)
    ensures
        key@ == name_rank((f.name@, f.score)),
{
    let bracket: bool = in_list(f.name.as_str(), '[');
    let mut key: Vec<i64> = Vec::new();
    key.push(0 - key_of(f.score));
    key.push(
        if bracket {
            1
        } else {
            0
        },
    );
    assert(key@ =~= name_rank((f.name@, f.score)));
    key
}

/// Ranks the fonts whose score is a number.
pub fn rank_names(v: &Vec<NamedScore>) -> (r: Vec<NamedScore>)
    ensures
        ({
            let s = finite_only(named(v@), v@.len() as int);
            exists|order: Seq<usize>| #[trigger]
                is_stable_order(name_ranks(s), order) && named(r@) == names_in(s, order)
        }),
{
    let n: usize = v.len();
    let ghost all = named(v@);
    let mut at: Vec<usize> = Vec::new();
    let mut keys: Vec<Vec<i64>> = Vec::new();
    let ghost mut s: Seq<(Seq<char>, u32)> = Seq::empty();
    for i in 0..n
        invariant
            n == v@.len(),
            all == named(v@),
            s == finite_only(all, i as int),
            at@.len() == s.len(),
            keys@.len() == s.len(),
            forall|k: int| 0 <= k < s.len() ==> #[trigger] at@[k] < n,
            forall|k: int|
                0 <= k < s.len() ==> all[at@[k] as int] == #[trigger] s[k] && keys@[k]@ == name_rank(
                    s[k],
                ),
    {
        let f: &NamedScore = &v[i];
        assert(all[i as int] == (f.name@, f.score));
        if f.score % 0x8000_0000 < INF {
            at.push(i);
            keys.push(rank_of_name(f));
            proof {
                s = s.push(all[i as int]);
            }
        }
    }
    assert(key_views(keys@) =~= name_ranks(s));
    let order: Vec<usize> = stable_order(&keys);
    let m: usize = at.len();
    let mut r: Vec<NamedScore> = Vec::new();
    for i in 0..m
        invariant
            m == at@.len(),
            m == s.len(),
            n == v@.len(),
            all == named(v@),
            order@.len() == m,
            forall|a: int| 0 <= a < m ==> #[trigger] order@[a] < m,
            forall|k: int| 0 <= k < m ==> #[trigger] at@[k] < n,
            forall|k: int| 0 <= k < m ==> all[at@[k] as int] == #[trigger] s[k],
            r@.len() == i,
            forall|k: int|
                0 <= k < i ==> ((#[trigger] r@[k]).name@, r@[k].score) == s[order@[k] as int],
    {
        let j: usize = order[i];
        assert(s[j as int] == all[at@[j as int] as int]);
        let f: &NamedScore = &v[at[j]];
        r.push(NamedScore { name: copy_of(f.name.as_str()), score: f.score });
    }
    assert(named(r@) =~= names_in(s, order@));
    r
}

/// The fonts among the first `n` whose score is not below `cutoff`.
pub open spec fn above(s: Seq<(Seq<char>, u32)>, cutoff: u32, n: int) -> Seq<(Seq<char>, u32)>
    decreases n,
{
    if n <= 0 {
        Seq::empty()
    } else if reaches(s[n - 1].1, cutoff) {
        above(s, cutoff, n - 1).push(s[n - 1])
    } else {
        above(s, cutoff, n - 1)
    }
}

/// Keeps the fonts whose score is not below `cutoff`.
pub fn keep_above(v: &Vec<NamedScore>, cutoff: u32) -> (r: Vec<NamedScore>)
    ensures
        named(r@) == above(named(v@), cutoff, v@.len() as int),
{
    let n: usize = v.len();
    let ghost all = named(v@);
    let mut r: Vec<NamedScore> = Vec::new();
    assert(named(r@) =~= above(all, cutoff, 0));
    for i in 0..n
        invariant
            n == v@.len(),
            all == named(v@),
            named(r@) == above(all, cutoff, i as int),
    {
        let f: &NamedScore = &v[i];
        assert(all[i as int] == (f.name@, f.score));
        if is_at_least(f.score, cutoff) {
            let ghost before = named(r@);
            r.push(NamedScore { name: copy_of(f.name.as_str()), score: f.score });
            assert(named(r@) =~= before.push((f.name@, f.score)));
        }
    }
    r
}

/// What is left where no font was kept: the first one in rank among all, if its score is a
/// number.
pub open spec fn is_first_ranked(all: Seq<(Seq<char>, u32)>, r: Seq<(Seq<char>, u32)>) -> bool {
    let s = finite_only(all, all.len() as int);
    exists|order: Seq<usize>| #[trigger]
        is_stable_order(name_ranks(s), order) && r == names_in(s, order).take(
            if s.len() > 0 {
                1
            } else {
                0
            },
        )
}

/// The fonts that were kept; where there are none, the best of all fonts, so that there is at
/// least one where any has a score.
pub fn or_best(kept: Vec<NamedScore>, all: &Vec<NamedScore>) -> (r: Vec<NamedScore>)
    ensures
        kept@.len() > 0 ==> r@ == kept@,
        kept@.len() == 0 ==> is_first_ranked(named(all@), named(r@)),
{
    if kept.len() > 0 {
        return kept;
    }
    let ranked: Vec<NamedScore> = rank_names(all);
    let ghost s = finite_only(named(all@), all@.len() as int);
    let ghost order = choose|order: Seq<usize>| #[trigger]
        is_stable_order(name_ranks(s), order) && named(ranked@) == names_in(s, order);
    assert(named(all@).len() == all@.len());
    assert(named(ranked@).len() == ranked@.len());
    let mut r: Vec<NamedScore> = Vec::new();
    if ranked.len() > 0 {
        r.push(NamedScore { name: copy_of(ranked[0].name.as_str()), score: ranked[0].score });
        assert(named(ranked@)[0] == (ranked@[0].name@, ranked@[0].score));
    }
    assert(named(r@) =~= names_in(s, order).take(
        if s.len() > 0 {
            1
        } else {
            0
        },
    ));
    r
}

/// Where no font was kept, the one that is left has the highest score of all.
pub proof fn law_first_ranked(all: Seq<(Seq<char>, u32)>, r: Seq<(Seq<char>, u32)>, i: int)
    requires
        is_first_ranked(all, r),
        all.len() <= usize::MAX,
        0 <= i < all.len(),
        is_finite(all[i].1),
    ensures
        r.len() == 1,
        is_finite(r[0].1),
        float_key(r[0].1) >= float_key(all[i].1),
{
    let s = finite_only(all, all.len() as int);
    lemma_finite_only(all, all.len() as int);
    let j = choose|j: int| 0 <= j < s.len() && s[j] == all[i];
    let order = choose|order: Seq<usize>| #[trigger]
        is_stable_order(name_ranks(s), order) && r == names_in(s, order).take(
            if s.len() > 0 {
                1
            } else {
                0
            },
        );
    assert(order.contains(j as usize)) by {
        assert(name_ranks(s).len() == s.len());
    }
    let p = choose|p: int| 0 <= p < order.len() && order[p] == j as usize;
    if p > 0 {
        assert(crate::sorting::goes_before(name_ranks(s), order[0] as int, order[p] as int));
        assert(name_ranks(s)[order[0] as int][0] == -float_key(s[order[0] as int].1));
        assert(name_ranks(s)[order[p] as int][0] == -float_key(s[order[p] as int].1));
    }
}

proof fn lemma_finite_only(s: Seq<(Seq<char>, u32)>, n: int)
    requires
        0 <= n <= s.len(),
        s.len() <= usize::MAX,
    ensures
        finite_only(s, n).len() <= n,
        forall|j: int| 0 <= j < finite_only(s, n).len() ==> is_finite(
            (#[trigger] finite_only(s, n)[j]).1,
        ),
        forall|i: int| 0 <= i < n && is_finite((#[trigger] s[i]).1) ==> finite_only(s, n).contains(
            s[i],
        ),
    decreases n,
{
    if n > 0 {
        lemma_finite_only(s, n - 1);
        let before = finite_only(s, n - 1);
        let after = finite_only(s, n);
        assert forall|i: int| 0 <= i < n && is_finite((#[trigger] s[i]).1) implies after.contains(
            s[i],
        ) by {
            if i < n - 1 {
                let j = choose|j: int| 0 <= j < before.len() && before[j] == s[i];
                assert(after[j] == s[i]);
            } else {
                assert(after[before.len() as int] == s[i]);
            }
        }
        assert forall|j: int| 0 <= j < after.len() implies is_finite((#[trigger] after[j]).1) by {
            if j < before.len() {
                assert(after[j] == before[j]);
            }
        }
    }
}

// --- One character ---

/// Measures the image of a character, or gives `None` if it has no ink.
pub fn compute_features(img: GrayImage) -> (r: Option<GlyphStats>)
    requires
        img.wf(),
    ensures
        r is None <==> forall|i: int|
            0 <= i < img.data@.len() ==> !#[trigger] is_ink(img.data@)(i),
        r is Some ==> r->0.raster == img && r->0.measured(CROSSING_BINS as int),
{
    measure(img, CROSSING_BINS)
}

/// Which of the first `n` entries with this name comes last.
pub open spec fn last_named(rows: Seq<FontRow>, name: Seq<char>, n: int) -> Option<int>
    decreases n,
{
    if n <= 0 {
        None
    } else if rows[n - 1].0 == name {
        Some(n - 1)
    } else {
        last_named(rows, name, n - 1)
    }
}

impl CharIndex {
    /// The feature vector of a font for a character: that of the last entry with its name.
    pub open spec fn vector_of(&self, ch: char, id: int) -> Option<Seq<u32>> {
        if id >= self.font_names_table@.len() {
            None
        } else {
            let rows = fonts_of(self.table(), ch);
            match last_named(rows, self.font_names_table@[id]@, rows.len() as int) {
                None => None,
                Some(k) => Some(rows[k].1),
            }
        }
    }

    /// The feature vector of a font for a character.
    pub fn font_vector(&self, ch: char, id: usize) -> (r: Option<Vec<u32>>)
        requires
            self.wf(),
        ensures
            match self.vector_of(ch, id as int) {
                None => r is None,
                Some(v) => r is Some && r->0@ == v,
            },
    {
        if id >= self.font_names_table.len() {
            return None;
        }
        let name: &str = self.font_names_table[id].as_str();
        let n: usize = self.entries.len();
        let ghost t = self.table();
        for i in 0..n
            invariant
                n == self.entries@.len(),
                self.wf(),
                t == self.table(),
                id < self.font_names_table@.len(),
                name@ == self.font_names_table@[id as int]@,
                forall|k: int| 0 <= k < i ==> (#[trigger] t[k]).0 != ch,
        {
            assert(t[i as int] == char_row(self.entries@[i as int]));
            if self.entries[i].ch == ch {
                proof {
                    lemma_slot_at(t, ch, i as int);
                }
                let fonts = &self.entries[i].fonts;
                let ghost rows = font_rows(fonts@);
                assert(rows == fonts_of(t, ch));
                let mut k: usize = fonts.len();
                while k > 0
                    invariant
                        k <= fonts@.len(),
                        self.wf(),
                        i < self.entries@.len(),
                        *fonts == self.entries@[i as int].fonts,
                        rows == font_rows(fonts@),
                        rows == fonts_of(self.table(), ch),
                        id < self.font_names_table@.len(),
                        name@ == self.font_names_table@[id as int]@,
                        last_named(rows, name@, k as int) == last_named(
                            rows,
                            name@,
                            rows.len() as int,
                        ),
                    decreases k,
                {
                    assert(rows[k - 1] == font_row(fonts@[k - 1]));
                    if same_text(fonts[k - 1].font_name.as_str(), name) {
                        assert(crate::char_index::rows_wf(self.entries@[i as int].fonts@));
                        return Some(fonts[k - 1].features.as_slice());
                    }
                    k = k - 1;
                }
                return None;
            }
        }
        proof {
            lemma_slot(t, ch);
            assert(fonts_of(t, ch).len() == 0);
        }
        None
    }
}

// --- What is found ---

/// Half of the characters are needed and no more: a font that is near to fewer has less than
/// half, and at least one is always needed.
pub proof fn law_half(n: int)
    requires
        0 <= n,
    ensures
        half_of(n) >= 1,
        2 * half_of(n) >= n,
        half_of(n) > 1 ==> 2 * (half_of(n) - 1) < n,
{
}

/// The least distance is not above any distance nor the largest finite number, and it is one
/// of these.
pub proof fn law_least(points: Seq<Hit>, m: u32, i: int)
    requires
        is_least(points, m),
        0 <= i < points.len(),
    ensures
        m <= points[i].1,
        m < 0x7f80_0000,
        (exists|k: int| 0 <= k < points.len() && (#[trigger] points[k]).1 < 0x7f80_0000)
            ==> exists|k: int| 0 <= k < points.len() && (#[trigger] points[k]).1 == m,
{
    if exists|k: int| 0 <= k < points.len() && (#[trigger] points[k]).1 < 0x7f80_0000 {
        let k = choose|k: int| 0 <= k < points.len() && (#[trigger] points[k]).1 < 0x7f80_0000;
        if m == 0x7f7f_ffff {
            assert(points[k].1 == m);
        }
    }
}

/// What is near is what the cutoff reaches: the points in their order, without those that lie
/// farther off or at no distance.
pub proof fn law_close_points(points: Seq<Hit>, cutoff: u32)
    ensures
        close_points(points, cutoff, points.len() as int) == points.filter(
            |p: Hit| reaches(cutoff, p.1),
        ),
{
    lemma_close_points(points, cutoff, points.len() as int);
    assert(points.take(points.len() as int) =~= points);
}

proof fn lemma_close_points(points: Seq<Hit>, cutoff: u32, n: int)
    requires
        0 <= n <= points.len(),
    ensures
        close_points(points, cutoff, n) == points.take(n).filter(|p: Hit| reaches(cutoff, p.1)),
    decreases n,
{
    reveal(Seq::filter);
    if n > 0 {
        lemma_close_points(points, cutoff, n - 1);
        assert(points.take(n).drop_last() =~= points.take(n - 1));
    }
}

/// The nearest points are those that the cutoff reaches, each as often as it is given; none
/// comes after one that is farther, and of points at one distance the order stays.
pub proof fn law_nearest(points: Seq<Hit>, cutoff: u32, order: Seq<usize>, r: Seq<Hit>)
    requires
        points.len() <= usize::MAX,
        is_stable_order(hit_keys(close_points(points, cutoff, points.len() as int)), order),
        r == hits_in(close_points(points, cutoff, points.len() as int), order),
    ensures
        r.len() == tally(|i: int| reaches(cutoff, points[i].1), points.len() as int),
        forall|i: int|
            0 <= i < points.len() && reaches(cutoff, (#[trigger] points[i]).1) ==> r.contains(
                points[i],
            ),
        forall|k: int|
            0 <= k < r.len() ==> points.contains(#[trigger] r[k]) && reaches(cutoff, r[k].1),
        forall|j: int, k: int|
            0 <= j < k < r.len() ==> float_key((#[trigger] r[j]).1) <= float_key(
                (#[trigger] r[k]).1,
            ),
{
    let n = points.len() as int;
    let near = close_points(points, cutoff, n);
    lemma_close(points, cutoff, n);
    let keys = hit_keys(near);
    assert forall|i: int| 0 <= i < n && reaches(cutoff, (#[trigger] points[i]).1) implies r.contains(
        points[i],
    ) by {
        assert(near.contains(points[i]));
        let j = choose|j: int| 0 <= j < near.len() && near[j] == points[i];
        assert(order.contains(j as usize));
        let k = choose|k: int| 0 <= k < order.len() && order[k] == j as usize;
        assert(r[k] == points[i]);
    }
    assert forall|k: int| 0 <= k < r.len() implies points.contains(#[trigger] r[k]) && reaches(
        cutoff,
        r[k].1,
    ) by {
        assert(r[k] == near[order[k] as int]);
    }
    assert forall|j: int, k: int| 0 <= j < k < r.len() implies float_key((#[trigger] r[j]).1)
        <= float_key((#[trigger] r[k]).1) by {
        assert(crate::sorting::goes_before(keys, order[j] as int, order[k] as int));
        assert(keys[order[j] as int] == seq![float_key(r[j].1)]);
        assert(keys[order[k] as int] == seq![float_key(r[k].1)]);
        reveal_with_fuel(crate::sorting::lex_le, 2);
    }
}

proof fn lemma_close(points: Seq<Hit>, cutoff: u32, n: int)
    requires
        0 <= n <= points.len(),
    ensures
        close_points(points, cutoff, n).len() == tally(
            |i: int| reaches(cutoff, points[i].1),
            n,
        ),
        close_points(points, cutoff, n).len() <= n,
        forall|i: int|
            0 <= i < n && reaches(cutoff, (#[trigger] points[i]).1) ==> close_points(
                points,
                cutoff,
                n,
            ).contains(points[i]),
        forall|k: int|
            0 <= k < close_points(points, cutoff, n).len() ==> points.contains(
                #[trigger] close_points(points, cutoff, n)[k],
            ) && reaches(cutoff, close_points(points, cutoff, n)[k].1),
    decreases n,
{
    if n > 0 {
        lemma_close(points, cutoff, n - 1);
        let before = close_points(points, cutoff, n - 1);
        let after = close_points(points, cutoff, n);
        assert forall|i: int|
            0 <= i < n && reaches(cutoff, (#[trigger] points[i]).1) implies after.contains(
            points[i],
        ) by {
            if i < n - 1 {
                let j = choose|j: int| 0 <= j < before.len() && before[j] == points[i];
                assert(after[j] == points[i]);
            } else {
                assert(after[before.len() as int] == points[i]);
            }
        }
        assert forall|k: int| 0 <= k < after.len() implies points.contains(#[trigger] after[k])
            && reaches(cutoff, after[k].1) by {
            if k < before.len() {
                assert(after[k] == before[k]);
            } else {
                assert(after[k] == points[n - 1]);
            }
        }
    }
}

/// The votes that a character gives a font are its hits on that font, in their order, each with
/// its distance and the character's weight. The votes of a line are those of its characters,
/// one after the other.
pub proof fn law_votes(chars: Seq<CharHits>, h: CharHits, font: usize)
    ensures
        votes_for(Seq::empty(), font, 0).len() == 0,
        votes_for(chars.push(h), font, chars.len() as int + 1) == votes_for(
            chars,
            font,
            chars.len() as int,
        ) + h.hits@.filter(|p: Hit| p.0 == font).map_values(|p: Hit| (p.1, h.weight)),
{
    let n = chars.len() as int;
    lemma_votes_same(chars, chars.push(h), font, n);
    assert(chars.push(h)[n] == h);
    lemma_votes_from(h, font, h.hits@.len() as int);
    assert(h.hits@.take(h.hits@.len() as int) =~= h.hits@);
}

proof fn lemma_votes_same(a: Seq<CharHits>, b: Seq<CharHits>, font: usize, n: int)
    requires
        forall|i: int| 0 <= i < n ==> #[trigger] a[i] == b[i],
    ensures
        votes_for(a, font, n) == votes_for(b, font, n),
    decreases n,
{
    if n > 0 {
        lemma_votes_same(a, b, font, n - 1);
    }
}

proof fn lemma_votes_from(h: CharHits, font: usize, n: int)
    requires
        0 <= n <= h.hits@.len(),
    ensures
        votes_from(h, font, n) == h.hits@.take(n).filter(|p: Hit| p.0 == font).map_values(
            |p: Hit| (p.1, h.weight),
        ),
    decreases n,
{
    reveal(Seq::filter);
    let f = |p: Hit| (p.1, h.weight);
    if n > 0 {
        lemma_votes_from(h, font, n - 1);
        assert(h.hits@.take(n).drop_last() =~= h.hits@.take(n - 1));
        let before = h.hits@.take(n - 1).filter(|p: Hit| p.0 == font);
        assert(votes_from(h, font, n) =~= h.hits@.take(n).filter(|p: Hit| p.0 == font).map_values(f));
    } else {
        assert(votes_from(h, font, n) =~= h.hits@.take(n).filter(|p: Hit| p.0 == font).map_values(f));
    }
}

/// A font is listed exactly if some character has a hit on it, and then once.
pub proof fn law_ballot(chars: Seq<CharHits>, b: Seq<FontVotes>, f: usize)
    requires
        is_ballot(chars, chars.len() as int, b),
    ensures
        (exists|i: int| 0 <= i < b.len() && (#[trigger] b[i]).font == f) <==> exists|c: int, k: int|
            0 <= c < chars.len() && 0 <= k < chars[c].hits@.len() && (
            #[trigger] chars[c].hits@[k]).0 == f,
        forall|i: int, j: int| 0 <= i < j < b.len() ==> #[trigger] b[i].font != #[trigger] b[j].font,
{
    let n = chars.len() as int;
    lemma_voted(chars, f, n);
    if exists|i: int| 0 <= i < b.len() && (#[trigger] b[i]).font == f {
        let i = choose|i: int| 0 <= i < b.len() && (#[trigger] b[i]).font == f;
        assert(b[i].votes@ == votes_for(chars, f, n));
    }
    if exists|c: int, k: int|
        0 <= c < chars.len() && 0 <= k < chars[c].hits@.len() && (#[trigger] chars[c].hits@[k]).0
            == f {
        assert(votes_for(chars, f, n).len() > 0);
        assert(has_row(b, f));
    }
    assert forall|i: int, j: int| 0 <= i < j < b.len() implies #[trigger] b[i].font
        != #[trigger] b[j].font by {
        assert(b[i].font < b[j].font);
    }
}

proof fn lemma_voted(chars: Seq<CharHits>, f: usize, n: int)
    requires
        0 <= n <= chars.len(),
    ensures
        votes_for(chars, f, n).len() > 0 <==> exists|c: int, k: int|
            0 <= c < n && 0 <= k < chars[c].hits@.len() && (#[trigger] chars[c].hits@[k]).0 == f,
    decreases n,
{
    if n > 0 {
        lemma_voted(chars, f, n - 1);
        let h = chars[n - 1];
        lemma_voted_by(h, f, h.hits@.len() as int);
        if exists|k: int| 0 <= k < h.hits@.len() && (#[trigger] h.hits@[k]).0 == f {
            let k = choose|k: int| 0 <= k < h.hits@.len() && (#[trigger] h.hits@[k]).0 == f;
            assert(chars[n - 1].hits@[k].0 == f);
        }
        if votes_for(chars, f, n - 1).len() > 0 {
            let (c, k) = choose|c: int, k: int|
                0 <= c < n - 1 && 0 <= k < chars[c].hits@.len() && (#[trigger] chars[c].hits@[k]).0
                    == f;
            assert(chars[c].hits@[k].0 == f);
        }
        if exists|c: int, k: int|
            0 <= c < n && 0 <= k < chars[c].hits@.len() && (#[trigger] chars[c].hits@[k]).0 == f {
            let (c, k) = choose|c: int, k: int|
                0 <= c < n && 0 <= k < chars[c].hits@.len() && (#[trigger] chars[c].hits@[k]).0 == f;
            if c == n - 1 {
                assert(h.hits@[k].0 == f);
            }
        }
    }
}

proof fn lemma_voted_by(h: CharHits, f: usize, n: int)
    requires
        0 <= n <= h.hits@.len(),
    ensures
        votes_from(h, f, n).len() > 0 <==> exists|k: int|
            0 <= k < n && (#[trigger] h.hits@[k]).0 == f,
    decreases n,
{
    if n > 0 {
        lemma_voted_by(h, f, n - 1);
        if h.hits@[n - 1].0 == f {
            assert(votes_from(h, f, n).len() == votes_from(h, f, n - 1).len() + 1);
        }
        if exists|k: int| 0 <= k < n && (#[trigger] h.hits@[k]).0 == f {
            let k = choose|k: int| 0 <= k < n && (#[trigger] h.hits@[k]).0 == f;
            if k < n - 1 {
                assert(h.hits@[k].0 == f);
            }
        }
    }
}

/// A score is a number unless its pattern, without sign, is that of infinity or beyond. Kept
/// above a cutoff are the fonts whose score reaches it, in their order.
pub proof fn law_kept_names(s: Seq<(Seq<char>, u32)>, cutoff: u32)
    ensures
        finite_only(s, s.len() as int) == s.filter(
            |p: (Seq<char>, u32)| p.1 % 0x8000_0000 < 0x7f80_0000,
        ),
        above(s, cutoff, s.len() as int) == s.filter(
            |p: (Seq<char>, u32)| reaches(p.1, cutoff),
        ),
{
    lemma_kept_names(s, cutoff, s.len() as int);
    assert(s.take(s.len() as int) =~= s);
}

proof fn lemma_kept_names(s: Seq<(Seq<char>, u32)>, cutoff: u32, n: int)
    requires
        0 <= n <= s.len(),
    ensures
        finite_only(s, n) == s.take(n).filter(
            |p: (Seq<char>, u32)| p.1 % 0x8000_0000 < 0x7f80_0000,
        ),
        above(s, cutoff, n) == s.take(n).filter(|p: (Seq<char>, u32)| reaches(p.1, cutoff)),
    decreases n,
{
    reveal(Seq::filter);
    if n > 0 {
        lemma_kept_names(s, cutoff, n - 1);
        assert(s.take(n).drop_last() =~= s.take(n - 1));
    }
}

/// Ranked fonts go by descending score. Of fonts with one score, those whose names have no
/// bracket come before those whose names have one, and where that is alike too the order
/// stays.
pub proof fn law_ranked_names(s: Seq<(Seq<char>, u32)>, order: Seq<usize>, a: int, b: int)
    requires
        s.len() <= usize::MAX,
        is_stable_order(name_ranks(s), order),
        0 <= a < b < s.len(),
    ensures
        ({
            let p = names_in(s, order)[a];
            let q = names_in(s, order)[b];
            &&& float_key(p.1) >= float_key(q.1)
            &&& float_key(p.1) == float_key(q.1) ==> (p.0.contains('[') ==> q.0.contains('['))
            &&& float_key(p.1) == float_key(q.1) && p.0.contains('[') == q.0.contains('[')
                ==> order[a] < order[b]
        }),
        names_in(s, order).to_multiset() == s.to_multiset(),
{
    let p = names_in(s, order)[a];
    let q = names_in(s, order)[b];
    let ranks = name_ranks(s);
    assert(crate::sorting::goes_before(ranks, order[a] as int, order[b] as int));
    let x = name_rank(p);
    let y = name_rank(q);
    assert(ranks[order[a] as int] == x && ranks[order[b] as int] == y);
    assert(x[0] == -float_key(p.1) && y[0] == -float_key(q.1));
    assert(x.drop_first() =~= seq![x[1]] && y.drop_first() =~= seq![y[1]]);
    reveal_with_fuel(crate::sorting::lex_le, 3);
    if float_key(p.1) == float_key(q.1) && p.0.contains('[') == q.0.contains('[') {
        assert(x =~= y);
    }
    crate::sorting::lemma_reordered_multiset(s, order);
    assert(names_in(s, order) =~= Seq::new(s.len(), |i: int| s[order[i] as int]));
}

/// The last entry with a name is the one that no later entry shares the name with.
pub proof fn law_last_named(rows: Seq<FontRow>, name: Seq<char>, n: int)
    requires
        0 <= n <= rows.len(),
    ensures
        match last_named(rows, name, n) {
            Some(k) => 0 <= k < n && rows[k].0 == name && forall|j: int|
                k < j < n ==> (#[trigger] rows[j]).0 != name,
            None => forall|j: int| 0 <= j < n ==> (#[trigger] rows[j]).0 != name,
        },
    decreases n,
{
    if n > 0 && rows[n - 1].0 != name {
        law_last_named(rows, name, n - 1);
    }
}

/// Characters with much shape count one and a half, those with little count a half, round
/// ones eight tenths and angular ones twelve; all others count one.
pub proof fn law_weights(c: char)
    ensures
        "gaeRQGSfty&@"@.contains(c) ==> weight_tenths(c) == 15,
        "Il1|!.,:;-"@.contains(c) ==> weight_tenths(c) == 5,
        "bdpqnuocOCD"@.contains(c) ==> weight_tenths(c) == 8,
        "kwxzABEFKMNW"@.contains(c) ==> weight_tenths(c) == 12,
        weight_tenths(c) == 10 <==> !("gaeRQGSfty&@"@ + "Il1|!.,:;-"@ + "bdpqnuocOCD"@
            + "kwxzABEFKMNW"@).contains(c),
{
    reveal_strlit("gaeRQGSfty&@");
    reveal_strlit("Il1|!.,:;-");
    reveal_strlit("bdpqnuocOCD");
    reveal_strlit("kwxzABEFKMNW");
    let a = "gaeRQGSfty&@"@;
    let b = "Il1|!.,:;-"@;
    let d = "bdpqnuocOCD"@;
    let k = "kwxzABEFKMNW"@;
    let all = a + b + d + k;
    if all.contains(c) {
        let i = choose|i: int| 0 <= i < all.len() && all[i] == c;
        if i < a.len() {
            assert(a[i] == c);
        } else if i < a.len() + b.len() {
            assert(b[i - a.len()] == c);
        } else if i < a.len() + b.len() + d.len() {
            assert(d[i - a.len() - b.len()] == c);
        } else {
            assert(k[i - a.len() - b.len() - d.len()] == c);
        }
    }
    if a.contains(c) {
        let i = choose|i: int| 0 <= i < a.len() && a[i] == c;
        assert(all[i] == c);
    }
    if b.contains(c) {
        let i = choose|i: int| 0 <= i < b.len() && b[i] == c;
        assert(all[i + a.len()] == c);
    }
    if d.contains(c) {
        let i = choose|i: int| 0 <= i < d.len() && d[i] == c;
        assert(all[i + a.len() + b.len()] == c);
    }
    if k.contains(c) {
        let i = choose|i: int| 0 <= i < k.len() && k[i] == c;
        assert(all[i + a.len() + b.len() + d.len()] == c);
    }
}

} // verus!
