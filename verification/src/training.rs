//! How training data are divided up, and how trained weights are laid out.

use rand::rngs::SmallRng;
use rand::seq::SliceRandom;
use rand::SeedableRng;
use vstd::prelude::*;
use crate::counting::tally;
use crate::features::FEAT_LEN;
use crate::float_bits::{as_unsigned, is_whole, law_whole, to_unsigned, whole_number};
use crate::mlp::{
    enc_mlp, entry_rows, entry_seqs, glyphs_in, law_mlp_round_trip, mlp_fits, net_table, parse_mlp,
    InferenceLinear, MlpEntry, NetRow,
};
use crate::ngram_model::{ImageModel, ModelRow};

verus! {

// --- Samples of the same glyph ---

/// The samples of a glyph.
pub struct GlyphGroup {
    pub id: u32,
    pub members: Vec<usize>,
}

/// Which of the first `n` samples show the glyph, in ascending order.
pub open spec fn members_of(ids: Seq<u32>, id: u32, n: int) -> Seq<usize>
    decreases n,
{
    if n <= 0 {
        Seq::empty()
    } else if ids[n - 1] == id {
        members_of(ids, id, n - 1).push((n - 1) as usize)
    } else {
        members_of(ids, id, n - 1)
    }
}

/// The groups of samples, by ascending glyph: there is one for each glyph that occurs, and
/// it holds all samples of the glyph.
pub open spec fn is_grouping(ids: Seq<u32>, groups: Seq<GlyphGroup>) -> bool {
    &&& forall|i: int, j: int|
        0 <= i < j < groups.len() ==> (#[trigger] groups[i]).id < (#[trigger] groups[j]).id
    &&& forall|g: int|
        0 <= g < groups.len() ==> (#[trigger] groups[g]).members@ == members_of(
            ids,
            groups[g].id,
            ids.len() as int,
        ) && ids.contains(groups[g].id)
    &&& forall|i: int| 0 <= i < ids.len() ==> has_group(groups, #[trigger] ids[i])
}

/// There is a group for the glyph.
pub open spec fn has_group(groups: Seq<GlyphGroup>, id: u32) -> bool {
    exists|g: int| 0 <= g < groups.len() && (#[trigger] groups[g]).id == id
}

/// The distinct numbers among the first `n`, in ascending order.
pub open spec fn is_sorted_set(ids: Seq<u32>, n: int, v: Seq<u32>) -> bool {
    &&& forall|i: int, j: int| 0 <= i < j < v.len() ==> #[trigger] v[i] < #[trigger] v[j]
    &&& forall|x: u32| #[trigger] v.contains(x) <==> ids.take(n).contains(x)
}

fn sorted_ids(ids: &Vec<u32>) -> (v: Vec<u32>)
    ensures
        is_sorted_set(ids@, ids@.len() as int, v@),
{
    let n: usize = ids.len();
    let mut v: Vec<u32> = Vec::new();
    assert(ids@.take(0) =~= Seq::<u32>::empty());
    for i in 0..n
        invariant
            n == ids@.len(),
            is_sorted_set(ids@, i as int, v@),
    {
        let x: u32 = ids[i];
        let mut k: usize = v.len();
        while k > 0 && v[k - 1] > x
            invariant
                k <= v@.len(),
                forall|j: int| k <= j < v@.len() ==> #[trigger] v@[j] > x,
            decreases k,
        {
            k = k - 1;
        }
        let ghost old_v = v@;
        let ghost a = ids@.take(i as int);
        let ghost b = ids@.take(i + 1);
        assert(b =~= a.push(x));
        assert(b[i as int] == x);
        if k == 0 || v[k - 1] != x {
            v.insert(k, x);
            proof {
                assert(v@[k as int] == x);
                assert forall|y: u32| #[trigger] v@.contains(y) <==> b.contains(y) by {
                    if v@.contains(y) {
                        let j = choose|j: int| 0 <= j < v@.len() && v@[j] == y;
                        if j < k {
                            assert(old_v[j] == y);
                            assert(old_v.contains(y));
                            lemma_contains_push(a, x, y);
                        } else if j > k {
                            assert(old_v[j - 1] == y);
                            assert(old_v.contains(y));
                            lemma_contains_push(a, x, y);
                        }
                    }
                    if b.contains(y) && y != x {
                        let j = choose|j: int| 0 <= j < b.len() && b[j] == y;
                        assert(a[j] == y);
                        assert(a.contains(y));
                        assert(old_v.contains(y));
                        let m = choose|m: int| 0 <= m < old_v.len() && old_v[m] == y;
                        if m < k {
                            assert(v@[m] == y);
                        } else {
                            assert(v@[m + 1] == y);
                        }
                    }
                }
            }
        } else {
            proof {
                assert(v@[k - 1] == x);
                assert forall|y: u32| #[trigger] v@.contains(y) <==> b.contains(y) by {
                    if v@.contains(y) {
                        assert(a.contains(y));
                        lemma_contains_push(a, x, y);
                    }
                    if b.contains(y) && y != x {
                        let j = choose|j: int| 0 <= j < b.len() && b[j] == y;
                        assert(a[j] == y);
                        assert(a.contains(y));
                    }
                }
            }
        }
    }
    v
}

proof fn lemma_contains_push(a: Seq<u32>, x: u32, y: u32)
    requires
        a.contains(y),
    ensures
        a.push(x).contains(y),
{
    let j = choose|j: int| 0 <= j < a.len() && a[j] == y;
    assert(a.push(x)[j] == y);
}

/// Groups samples by their glyphs.
pub fn group_by_glyph(ids: &Vec<u32>) -> (groups: Vec<GlyphGroup>)
    ensures
        is_grouping(ids@, groups@),
{
    let n: usize = ids.len();
    let order: Vec<u32> = sorted_ids(ids);
    let k: usize = order.len();
    let mut groups: Vec<GlyphGroup> = Vec::new();
    assert(ids@.take(n as int) =~= ids@);
    for g in 0..k
        invariant
            n == ids@.len(),
            k == order@.len(),
            groups@.len() == g,
            is_sorted_set(ids@, n as int, order@),
            ids@.take(n as int) == ids@,
            forall|j: int|
                0 <= j < g ==> (#[trigger] groups@[j]).id == order@[j] && groups@[j].members@
                    == members_of(ids@, order@[j], n as int),
    {
        let id: u32 = order[g];
        let mut members: Vec<usize> = Vec::new();
        for i in 0..n
            invariant
                n == ids@.len(),
                members@ == members_of(ids@, id, i as int),
        {
            if ids[i] == id {
                members.push(i);
            }
        }
        groups.push(GlyphGroup { id, members });
    }
    proof {
        assert forall|i: int, j: int| 0 <= i < j < groups@.len() implies (#[trigger] groups@[i]).id
            < (#[trigger] groups@[j]).id by {
            assert(order@[i] < order@[j]);
        }
        assert forall|g: int| 0 <= g < groups@.len() implies (#[trigger] groups@[g]).members@
            == members_of(ids@, groups@[g].id, n as int) && ids@.contains(groups@[g].id) by {
            assert(order@[g] == groups@[g].id);
            assert(order@.contains(order@[g]));
        }
        assert forall|i: int| 0 <= i < ids@.len() implies has_group(groups@, #[trigger] ids@[i]) by {
            assert(ids@.take(n as int).contains(ids@[i]));
            assert(order@.contains(ids@[i]));
            let g = choose|g: int| 0 <= g < order@.len() && order@[g] == ids@[i];
            assert(groups@[g].id == ids@[i]);
        }
    }
    groups
}

proof fn lemma_members(ids: Seq<u32>, id: u32, n: int, i: usize)
    requires
        0 <= n <= ids.len(),
        ids.len() <= usize::MAX,
    ensures
        members_of(ids, id, n).contains(i) <==> i < n && ids[i as int] == id,
    decreases n,
{
    if n > 0 {
        lemma_members(ids, id, n - 1, i);
        let before = members_of(ids, id, n - 1);
        if ids[n - 1] == id {
            let after = before.push((n - 1) as usize);
            if after.contains(i) {
                let j = choose|j: int| 0 <= j < after.len() && after[j] == i;
                if j < before.len() {
                    assert(before[j] == i);
                }
            }
            if before.contains(i) {
                let j = choose|j: int| 0 <= j < before.len() && before[j] == i;
                assert(after[j] == i);
            }
            assert(after[before.len() as int] == (n - 1) as usize);
        }
    }
}

/// Every sample is in the group of its glyph and in no other one.
pub proof fn law_groups_partition(ids: Seq<u32>, groups: Seq<GlyphGroup>, i: usize, g: int)
    requires
        ids.len() <= usize::MAX,
        is_grouping(ids, groups),
        i < ids.len(),
        0 <= g < groups.len(),
    ensures
        groups[g].members@.contains(i) <==> groups[g].id == ids[i as int],
{
    lemma_members(ids, groups[g].id, ids.len() as int, i);
}

/// The plan for the samples of a sequence: their groups, unless these are less than two, or
/// less than were asked for.
pub open spec fn is_plan(ids: Seq<u32>, min_fonts: usize, r: Option<Vec<GlyphGroup>>) -> bool {
    match r {
        Some(groups) => is_grouping(ids, groups@) && groups@.len() >= min_fonts && groups@.len()
            >= 2,
        None => exists|groups: Seq<GlyphGroup>| #[trigger]
            is_grouping(ids, groups) && (groups.len() < min_fonts || groups.len() < 2),
    }
}

/// Groups the samples of a sequence, unless there are none or they show too few glyphs:
/// less than two, or less than were asked for.
pub fn plan_sequence(ids: &Vec<u32>, min_fonts: usize) -> (r: Option<Vec<GlyphGroup>>)
    ensures
        is_plan(ids@, min_fonts, r),
{
    let groups: Vec<GlyphGroup> = group_by_glyph(ids);
    if groups.len() < min_fonts || groups.len() < 2 {
        assert(is_grouping(ids@, groups@));
        None
    } else {
        Some(groups)
    }
}

/// The glyphs of groups.
pub open spec fn group_ids(groups: Seq<GlyphGroup>) -> Seq<u32> {
    Seq::new(groups.len(), |g: int| groups[g].id)
}

/// The glyphs that the classes of a net stand for: those of the groups, in their order.
pub fn class_ids(groups: &Vec<GlyphGroup>) -> (v: Vec<u32>)
    ensures
        v@ == group_ids(groups@),
{
    let n: usize = groups.len();
    let mut v: Vec<u32> = Vec::new();
    for g in 0..n
        invariant
            n == groups@.len(),
            v@ == group_ids(groups@.take(g as int)),
    {
        v.push(groups[g].id);
        assert(v@ =~= group_ids(groups@.take(g + 1)));
    }
    assert(groups@.take(n as int) =~= groups@);
    v
}

/// Which of the first `n` sequences have groups to train a net on.
pub open spec fn planned(plans: Seq<Option<Vec<GlyphGroup>>>, n: int) -> Seq<int>
    decreases n,
{
    if n <= 0 {
        Seq::empty()
    } else if plans[n - 1] is Some {
        planned(plans, n - 1).push(n - 1)
    } else {
        planned(plans, n - 1)
    }
}

/// There is one net for each sequence with groups, in order, and its classes are the groups.
pub open spec fn are_trained(
    seqs: Seq<Seq<char>>,
    plans: Seq<Option<Vec<GlyphGroup>>>,
    entries: Seq<MlpEntry>,
) -> bool {
    let at = planned(plans, plans.len() as int);
    &&& entries.len() == at.len()
    &&& forall|j: int|
        0 <= j < at.len() ==> (#[trigger] entries[j]).seq@ == seqs[at[j]]
            && entries[j].net.class_map@ == group_ids(plans[at[j]]->0@)
}

proof fn lemma_planned(plans: Seq<Option<Vec<GlyphGroup>>>, n: int)
    requires
        0 <= n <= plans.len(),
    ensures
        forall|j: int|
            0 <= j < planned(plans, n).len() ==> 0 <= #[trigger] planned(plans, n)[j] < n
                && plans[planned(plans, n)[j]] is Some,
        forall|k: int|
            0 <= k < n && (#[trigger] plans[k]) is Some ==> planned(plans, n).contains(k),
    decreases n,
{
    if n > 0 {
        lemma_planned(plans, n - 1);
        let before = planned(plans, n - 1);
        let after = planned(plans, n);
        assert forall|k: int| 0 <= k < n && (#[trigger] plans[k]) is Some implies after.contains(
            k,
        ) by {
            if k < n - 1 {
                let j = choose|j: int| 0 <= j < before.len() && before[j] == k;
                assert(after[j] == k);
            } else {
                assert(after[after.len() - 1] == k);
            }
        }
    }
}

/// Each sequence is planned once, in order.
proof fn lemma_planned_ascend(plans: Seq<Option<Vec<GlyphGroup>>>, n: int)
    requires
        0 <= n <= plans.len(),
    ensures
        forall|i: int, j: int|
            0 <= i < j < planned(plans, n).len() ==> #[trigger] planned(plans, n)[i]
                < #[trigger] planned(plans, n)[j],
    decreases n,
{
    if n > 0 {
        lemma_planned_ascend(plans, n - 1);
        lemma_planned(plans, n - 1);
        let before = planned(plans, n - 1);
        let after = planned(plans, n);
        assert forall|i: int, j: int| 0 <= i < j < after.len() implies #[trigger] after[i]
            < #[trigger] after[j] by {
            assert(after[i] == before[i]);
            if j < before.len() {
                assert(after[j] == before[j]);
            }
        }
    }
}

/// A table of nets holds the sequences that were put into it, each with its net.
proof fn lemma_table(keys: Seq<Seq<char>>, rows: Seq<NetRow>, n: int, s: Seq<char>, row: NetRow)
    requires
        0 <= n <= keys.len(),
        keys.len() == rows.len(),
        forall|j: int| 0 <= j < keys.len() && #[trigger] keys[j] == s ==> rows[j] == row,
    ensures
        net_table(keys, rows, n).dom().contains(s) <==> keys.take(n).contains(s),
        net_table(keys, rows, n).dom().contains(s) ==> net_table(keys, rows, n)[s] == row,
    decreases n,
{
    if n > 0 {
        lemma_table(keys, rows, n - 1, s, row);
        let before = keys.take(n - 1);
        let after = keys.take(n);
        if before.contains(s) {
            let j = choose|j: int| 0 <= j < before.len() && before[j] == s;
            assert(after[j] == s);
        }
        if after.contains(s) && keys[n - 1] != s {
            let j = choose|j: int| 0 <= j < after.len() && after[j] == s;
            assert(before[j] == s);
        }
        if keys[n - 1] == s {
            assert(after[n - 1] == s);
        }
    }
}

/// A file of nets that were trained on what was planned for each sequence is read back with the
/// net of each sequence whose samples show enough glyphs, and with none where they show less than
/// two or less than were asked for. The classes of a net are the glyphs that the samples show.
pub proof fn law_mlp_glyphs(
    seqs: Seq<Seq<char>>,
    ids: Seq<Seq<u32>>,
    min_fonts: usize,
    plans: Seq<Option<Vec<GlyphGroup>>>,
    entries: Seq<MlpEntry>,
    k: int,
    groups: Seq<GlyphGroup>,
)
    requires
        seqs.no_duplicates(),
        ids.len() == seqs.len(),
        plans.len() == seqs.len(),
        forall|i: int| 0 <= i < plans.len() ==> is_plan(ids[i], min_fonts, #[trigger] plans[i]),
        are_trained(seqs, plans, entries),
        mlp_fits(entry_seqs(entries), entry_rows(entries)),
        forall|i: int| 0 <= i < entries.len() ==> (#[trigger] entry_rows(entries)[i]).wf(),
        0 <= k < seqs.len(),
        is_grouping(ids[k], groups),
    ensures
        ({
            let got = parse_mlp(enc_mlp(entry_seqs(entries), entry_rows(entries)));
            let at = planned(plans, plans.len() as int);
            &&& got is Ok
            &&& glyphs_in(got->Ok_0, seqs[k]) == (if groups.len() >= min_fonts && groups.len()
                >= 2 {
                groups.len()
            } else {
                0
            })
            &&& got->Ok_0.dom().contains(seqs[k]) <==> groups.len() >= min_fonts && groups.len()
                >= 2
            &&& groups.len() >= min_fonts && groups.len() >= 2 ==> exists|j: int|
                0 <= j < entries.len() && at[j] == k && got->Ok_0[seqs[k]] == (
                #[trigger] entries[j]).net.row() && entries[j].net.class_map@ == group_ids(groups)
        }),
{
    let keys = entry_seqs(entries);
    let rows = entry_rows(entries);
    let n = rows.len() as int;
    let at = planned(plans, plans.len() as int);
    law_mlp_round_trip(keys, rows);
    lemma_planned(plans, plans.len() as int);
    lemma_planned_ascend(plans, plans.len() as int);
    assert(is_plan(ids[k], min_fonts, plans[k]));
    assert(keys.take(n) =~= keys);
    assert forall|j: int| 0 <= j < keys.len() && #[trigger] keys[j] == seqs[k] implies at[j] == k
        && plans[k] is Some by {
        assert(entries[j].seq@ == seqs[at[j]]);
        assert(plans[at[j]] is Some);
    }
    if plans[k] is Some {
        law_grouping_unique(ids[k], plans[k]->0@, groups);
        assert(group_ids(plans[k]->0@) =~= group_ids(groups));
        assert(at.contains(k));
        let j = choose|j: int| 0 <= j < at.len() && at[j] == k;
        assert(entries[j].seq@ == seqs[k]);
        assert(keys[j] == seqs[k]);
        assert(rows[j] == entries[j].net.row());
        assert forall|i: int| 0 <= i < keys.len() && #[trigger] keys[i] == seqs[k] implies rows[i]
            == rows[j] by {
            assert(at[i] == at[j]);
            if i < j {
                assert(at[i] < at[j]);
            } else if j < i {
                assert(at[j] < at[i]);
            }
        }
        lemma_table(keys, rows, n, seqs[k], rows[j]);
        assert(keys.contains(seqs[k]));
    } else {
        let few = choose|few: Seq<GlyphGroup>| #[trigger]
            is_grouping(ids[k], few) && (few.len() < min_fonts || few.len() < 2);
        law_grouping_unique(ids[k], few, groups);
        lemma_table(keys, rows, n, seqs[k], arbitrary());
        if keys.contains(seqs[k]) {
            let j = choose|j: int| 0 <= j < keys.len() && keys[j] == seqs[k];
            assert(plans[k] is Some);
        }
    }
}

/// Two groupings of the same samples have the same glyphs.
pub proof fn law_grouping_unique(ids: Seq<u32>, a: Seq<GlyphGroup>, b: Seq<GlyphGroup>)
    requires
        is_grouping(ids, a),
        is_grouping(ids, b),
    ensures
        a.len() == b.len(),
        forall|g: int|
            0 <= g < a.len() ==> (#[trigger] a[g]).id == b[g].id && a[g].members@ == b[g].members@,
{
    lemma_groups_agree(ids, a, b, if a.len() <= b.len() {
        a.len() as int
    } else {
        b.len() as int
    });
    if a.len() < b.len() {
        lemma_no_more(ids, a, b);
    } else if b.len() < a.len() {
        lemma_groups_agree(ids, b, a, b.len() as int);
        lemma_no_more(ids, b, a);
    }
}

/// Where all groups of `a` are the first groups of `b`, there are no more.
proof fn lemma_no_more(ids: Seq<u32>, a: Seq<GlyphGroup>, b: Seq<GlyphGroup>)
    requires
        is_grouping(ids, a),
        is_grouping(ids, b),
        a.len() <= b.len(),
        forall|g: int| 0 <= g < a.len() ==> (#[trigger] a[g]).id == b[g].id,
    ensures
        a.len() == b.len(),
{
    let k = a.len() as int;
    if k < b.len() {
        assert(ids.contains(b[k].id));
        let i = choose|i: int| 0 <= i < ids.len() && ids[i] == b[k].id;
        assert(has_group(a, ids[i]));
        let g = choose|g: int| 0 <= g < a.len() && (#[trigger] a[g]).id == ids[i];
        assert(a[g].id == b[g].id);
        assert(b[g].id < b[k].id);
    }
}

proof fn lemma_groups_agree(ids: Seq<u32>, a: Seq<GlyphGroup>, b: Seq<GlyphGroup>, k: int)
    requires
        is_grouping(ids, a),
        is_grouping(ids, b),
        0 <= k <= a.len(),
        k <= b.len(),
    ensures
        forall|g: int|
            0 <= g < k ==> (#[trigger] a[g]).id == b[g].id && a[g].members@ == b[g].members@,
    decreases k,
{
    if k > 0 {
        lemma_groups_agree(ids, a, b, k - 1);
        let x = a[k - 1].id;
        let y = b[k - 1].id;
        if x < y {
            lemma_not_skipped(ids, a, b, k - 1);
        } else if y < x {
            lemma_not_skipped(ids, b, a, k - 1);
        }
    }
}

/// A glyph that occurs cannot lie between the groups.
proof fn lemma_not_skipped(ids: Seq<u32>, a: Seq<GlyphGroup>, b: Seq<GlyphGroup>, k: int)
    requires
        is_grouping(ids, a),
        is_grouping(ids, b),
        0 <= k < a.len(),
        k < b.len(),
        forall|g: int| 0 <= g < k ==> (#[trigger] a[g]).id == b[g].id,
    ensures
        b[k].id <= a[k].id,
{
    assert(ids.contains(a[k].id));
    let i = choose|i: int| 0 <= i < ids.len() && ids[i] == a[k].id;
    assert(has_group(b, ids[i]));
    let g = choose|g: int| 0 <= g < b.len() && (#[trigger] b[g]).id == ids[i];
    if g < k {
        assert(a[g].id == b[g].id);
        assert(a[g].id < a[k].id);
    } else if g > k {
        assert(b[k].id < b[g].id);
    }
}

/// The class of a glyph: its place among the groups.
pub fn class_of(groups: &Vec<GlyphGroup>, id: u32) -> (r: Option<usize>)
    ensures
        r is None <==> forall|g: int| 0 <= g < groups@.len() ==> (#[trigger] groups@[g]).id != id,
        r is Some ==> r->0 < groups@.len() && groups@[r->0 as int].id == id,
{
    let n: usize = groups.len();
    for g in 0..n
        invariant
            n == groups@.len(),
            forall|j: int| 0 <= j < g ==> (#[trigger] groups@[j]).id != id,
    {
        if groups[g].id == id {
            return Some(g);
        }
    }
    None
}

/// How many pairs of samples are drawn from a group to calibrate the scale: at most five,
/// and no more than there are.
pub open spec fn pairs_drawn(n: int) -> int {
    if n * (n - 1) / 2 < 5 {
        n * (n - 1) / 2
    } else {
        5
    }
}

/// How many pairs of samples are drawn from a group of `n`.
pub fn pair_count(n: usize) -> (r: usize)
    ensures
        r == pairs_drawn(n as int),
{
    if n >= 4 {
        assert(n * (n - 1) >= 12) by (nonlinear_arith)
            requires
                n >= 4,
        ;
        5
    } else if n == 3 {
        assert(n * (n - 1) == 6) by (nonlinear_arith)
            requires
                n == 3,
        ;
        3
    } else if n == 2 {
        assert(n * (n - 1) == 2) by (nonlinear_arith)
            requires
                n == 2,
        ;
        1
    } else {
        assert(n * (n - 1) == 0) by (nonlinear_arith)
            requires
                n == 0 || n == 1,
        ;
        0
    }
}

/// What was drawn for a triplet: a group, two places in it, another group and a place in
/// that one.
#[derive(Clone, Copy, Debug, PartialEq, Eq, Structural)]
pub struct TripletDraw {
    pub anchor: usize,
    pub first: usize,
    pub second: usize,
    pub other: usize,
    pub third: usize,
}

/// The draws name groups and samples that are there, and two different groups.
pub open spec fn draw_ok(groups: Seq<GlyphGroup>, d: TripletDraw) -> bool {
    &&& d.anchor < groups.len() && d.other < groups.len() && d.anchor != d.other
    &&& d.first < groups[d.anchor as int].members@.len()
    &&& d.second < groups[d.anchor as int].members@.len()
    &&& d.third < groups[d.other as int].members@.len()
}

/// The samples of a triplet: two of one glyph and one of another. A draw that names the
/// same sample twice gives none.
pub fn triplet_of(groups: &Vec<GlyphGroup>, d: &TripletDraw) -> (r: Option<(usize, usize, usize)>)
    requires
        draw_ok(groups@, *d),
    ensures
        ({
            let a = groups@[d.anchor as int].members@;
            let b = groups@[d.other as int].members@;
            &&& r is None <==> a[d.first as int] == a[d.second as int]
            &&& r is Some ==> r->0 == (a[d.first as int], a[d.second as int], b[d.third as int])
        }),
{
    let i: usize = groups[d.anchor].members[d.first];
    let j: usize = groups[d.anchor].members[d.second];
    if i == j {
        None
    } else {
        Some((i, j, groups[d.other].members[d.third]))
    }
}

/// The first two samples of a triplet show the same glyph, the third one another.
pub proof fn law_triplet_glyphs(ids: Seq<u32>, groups: Seq<GlyphGroup>, d: TripletDraw)
    requires
        ids.len() <= usize::MAX,
        is_grouping(ids, groups),
        draw_ok(groups, d),
    ensures
        ({
            let i = groups[d.anchor as int].members@[d.first as int];
            let j = groups[d.anchor as int].members@[d.second as int];
            let k = groups[d.other as int].members@[d.third as int];
            &&& i < ids.len() && j < ids.len() && k < ids.len()
            &&& ids[i as int] == ids[j as int]
            &&& ids[i as int] != ids[k as int]
        }),
{
    let a = groups[d.anchor as int];
    let b = groups[d.other as int];
    let n = ids.len() as int;
    assert(a.members@.contains(a.members@[d.first as int]));
    assert(a.members@.contains(a.members@[d.second as int]));
    assert(b.members@.contains(b.members@[d.third as int]));
    lemma_members(ids, a.id, n, a.members@[d.first as int]);
    lemma_members(ids, a.id, n, a.members@[d.second as int]);
    lemma_members(ids, b.id, n, b.members@[d.third as int]);
    if d.anchor < d.other {
        assert(a.id < b.id);
    } else {
        assert(b.id < a.id);
    }
}

// --- Batches ---

/// Where batch `k` of `n` samples begins and ends.
pub open spec fn batch(k: int, size: int, n: int) -> (int, int) {
    (
        k * size,
        if (k + 1) * size < n {
            (k + 1) * size
        } else {
            n
        },
    )
}

/// Divides `n` samples into batches of `size`; the last one may be smaller.
pub fn batches(n: usize, size: usize) -> (r: Vec<(usize, usize)>)
    requires
        size > 0,
    ensures
        forall|k: int|
            0 <= k < r@.len() ==> ((#[trigger] r@[k]).0 as int, r@[k].1 as int) == batch(
                k,
                size as int,
                n as int,
            ) && r@[k].0 < r@[k].1,
        r@.len() * size >= n,
        r@.len() > 0 ==> (r@.len() - 1) * size < n,
        n == 0 ==> r@.len() == 0,
{
    let mut r: Vec<(usize, usize)> = Vec::new();
    let mut p: usize = 0;
    assert(0 * size == 0);
    while p < n
        invariant
            size > 0,
            p <= n,
            p == n ==> r@.len() * size >= n,
            p < n ==> p == r@.len() * size,
            r@.len() > 0 ==> (r@.len() - 1) * size < n,
            n == 0 ==> r@.len() == 0,
            forall|k: int|
                0 <= k < r@.len() ==> ((#[trigger] r@[k]).0 as int, r@[k].1 as int) == batch(
                    k,
                    size as int,
                    n as int,
                ) && r@[k].0 < r@[k].1,
        decreases n - p,
    {
        let end: usize = if n - p <= size {
            n
        } else {
            p + size
        };
        let ghost m = r@.len() as int;
        assert((m + 1) * size == m * size + size) by (nonlinear_arith);
        r.push((p, end));
        p = end;
    }
    r
}

/// Batches follow one another without gaps, from the first sample to the last.
pub proof fn law_batches_cover(size: int, n: int, count: int, k: int)
    requires
        size > 0,
        0 <= k < count,
        (count - 1) * size < n <= count * size,
    ensures
        batch(0, size, n).0 == 0,
        k + 1 < count ==> batch(k, size, n).1 == batch(k + 1, size, n).0,
        k + 1 == count ==> batch(k, size, n).1 == n,
{
    assert(0 * size == 0);
    if k + 1 < count {
        assert((k + 1) * size <= (count - 1) * size) by (nonlinear_arith)
            requires
                k + 1 <= count - 1,
                size > 0,
        ;
    }
}

// --- Drawing samples ---

/// Calls `SliceRandom::shuffle` with a `SmallRng` seeded by `SeedableRng::seed_from_u64`.
/// The result is the same list in another order; which order depends on the machine.
#[verifier::external_body]
fn shuffled(v: Vec<usize>, seed: u64) -> (r: Vec<usize>)
    ensures
        r@.to_multiset() == v@.to_multiset(),
{
    let mut w: Vec<usize> = v;
    w.shuffle(&mut SmallRng::seed_from_u64(seed));
    w
}

/// The samples that an evaluation looks at: all, or `max` different ones where there are
/// more.
pub fn subsample_eval(n: usize, max: usize, seed: u64) -> (r: Vec<usize>)
    ensures
        n <= max ==> r@ == Seq::new(n as nat, |i: int| i as usize),
        n > max ==> r@.len() == max,
        r@.no_duplicates(),
        forall|i: int| 0 <= i < r@.len() ==> #[trigger] r@[i] < n,
{
    let mut all: Vec<usize> = Vec::new();
    for i in 0..n
        invariant
            all@ == Seq::new(i as nat, |j: int| j as usize),
    {
        all.push(i);
        assert(all@ =~= Seq::new((i + 1) as nat, |j: int| j as usize));
    }
    if n <= max {
        return all;
    }
    let ghost before = all@;
    let mixed: Vec<usize> = shuffled(all, seed);
    proof {
        before.to_multiset_ensures();
        mixed@.to_multiset_ensures();
        before.lemma_multiset_has_no_duplicates();
        mixed@.lemma_multiset_has_no_duplicates_conv();
        assert(before.to_multiset().len() == mixed@.to_multiset().len());
        assert(mixed@.len() == before.len());
        assert forall|i: int| 0 <= i < mixed@.len() implies #[trigger] mixed@[i] < n by {
            assert(mixed@.contains(mixed@[i]));
            assert(before.to_multiset().count(mixed@[i]) > 0);
            assert(before.contains(mixed@[i]));
        }
    }
    let mut r: Vec<usize> = Vec::new();
    for i in 0..max
        invariant
            max < n,
            n == mixed@.len(),
            r@ == mixed@.take(i as int),
    {
        r.push(mixed[i]);
        assert(r@ =~= mixed@.take(i + 1));
    }
    r
}

// --- Ranks ---

/// Another candidate is nearer than the right one.
pub open spec fn nearer(d: Seq<u32>, right: int) -> spec_fn(int) -> bool {
    |j: int| j != right && d[j] < d[right]
}

/// The rank of the right candidate: how many others are nearer.
pub fn rank_of(dists: &Vec<u32>, right: usize) -> (r: usize)
    requires
        right < dists@.len(),
    ensures
        r == tally(nearer(dists@, right as int), dists@.len() as int),
{
    let n: usize = dists.len();
    let mut r: usize = 0;
    for j in 0..n
        invariant
            n == dists@.len(),
            right < n,
            r == tally(nearer(dists@, right as int), j as int),
            r <= j,
    {
        if j != right && dists[j] < dists[right] {
            r = r + 1;
        }
    }
    r
}

/// How often the right candidate came first, and among the first five.
#[derive(Clone, Copy, Debug, PartialEq, Eq, Structural)]
pub struct RankCounts {
    pub total: u64,
    pub top1: u64,
    pub top5: u64,
}

impl RankCounts {
    pub open spec fn wf(self) -> bool {
        self.top1 <= self.top5 <= self.total
    }

    pub fn new() -> (c: RankCounts)
        ensures
            c == (RankCounts { total: 0, top1: 0, top5: 0 }),
    {
        RankCounts { total: 0, top1: 0, top5: 0 }
    }

    /// Counts a rank; the best one is zero.
    pub fn record(&mut self, rank: usize)
        requires
            old(self).wf(),
            old(self).total < u64::MAX,
        ensures
            final(self).wf(),
            final(self).total == old(self).total + 1,
            final(self).top1 == old(self).top1 + (if rank == 0 {
                1int
            } else {
                0
            }),
            final(self).top5 == old(self).top5 + (if rank < 5 {
                1int
            } else {
                0
            }),
    {
        self.total = self.total + 1;
        if rank == 0 {
            self.top1 = self.top1 + 1;
        }
        if rank < 5 {
            self.top5 = self.top5 + 1;
        }
    }

    /// Adds the counts of another sequence.
    pub fn accumulate(&mut self, other: &RankCounts)
        requires
            old(self).wf(),
            other.wf(),
            old(self).total + other.total <= u64::MAX,
        ensures
            final(self).wf(),
            final(self).total == old(self).total + other.total,
            final(self).top1 == old(self).top1 + other.top1,
            final(self).top5 == old(self).top5 + other.top5,
    {
        self.total = self.total + other.total;
        self.top1 = self.top1 + other.top1;
        self.top5 = self.top5 + other.top5;
    }
}

// --- The layout of weights ---

/// How many dimensions linear discriminant analysis projects to.
pub fn lda_target_dims(wanted: usize) -> (d: usize)
    ensures
        d == (if wanted < FEAT_LEN - 1 {
            wanted as int
        } else {
            FEAT_LEN - 1
        }),
{
    if wanted < FEAT_LEN - 1 {
        wanted
    } else {
        FEAT_LEN - 1
    }
}

/// Outputs of the three layers of a triplet network.
pub const L1_OUT: usize = 128;

pub const L2_OUT: usize = 64;

pub const L3_OUT: usize = 32;

/// How many weights a triplet network has.
pub const PARAMS_PER_CHAR: usize = 18528;

/// A triplet network.
pub struct GlyphNet {
    pub fc1: InferenceLinear,
    pub fc2: InferenceLinear,
    pub fc3: InferenceLinear,
}

impl GlyphNet {
    pub open spec fn wf(&self) -> bool {
        &&& self.fc1.wf() && self.fc1.rows == FEAT_LEN && self.fc1.cols == L1_OUT
        &&& self.fc2.wf() && self.fc2.rows == L1_OUT && self.fc2.cols == L2_OUT
        &&& self.fc3.wf() && self.fc3.rows == L2_OUT && self.fc3.cols == L3_OUT
    }

    /// The weights of the layers one after the other.
    pub open spec fn flat(&self) -> Seq<u32> {
        self.fc1.w@ + self.fc1.b@ + self.fc2.w@ + self.fc2.b@ + self.fc3.w@ + self.fc3.b@
    }

    /// The weights of the layers one after the other.
    pub fn flatten(&self) -> (v: Vec<u32>)
        ensures
            v@ == self.flat(),
    {
        let mut v: Vec<u32> = Vec::new();
        push_all(&mut v, &self.fc1.w);
        push_all(&mut v, &self.fc1.b);
        push_all(&mut v, &self.fc2.w);
        push_all(&mut v, &self.fc2.b);
        push_all(&mut v, &self.fc3.w);
        push_all(&mut v, &self.fc3.b);
        assert(v@ =~= self.flat());
        v
    }

    /// A network from its weights; there is none where their number is wrong.
    pub fn from_weights(w: &Vec<u32>) -> (r: Option<GlyphNet>)
        ensures
            r is Some <==> w@.len() == PARAMS_PER_CHAR,
            r is Some ==> r->0.wf() && r->0.flat() == w@,
    {
        if w.len() != PARAMS_PER_CHAR {
            return None;
        }
        assert(FEAT_LEN * L1_OUT == 8064 && L1_OUT * L2_OUT == 8192 && L2_OUT * L3_OUT == 2048);
        let net = GlyphNet {
            fc1: InferenceLinear {
                rows: FEAT_LEN,
                cols: L1_OUT,
                w: part(w, 0, 8064),
                b: part(w, 8064, 8192),
            },
            fc2: InferenceLinear {
                rows: L1_OUT,
                cols: L2_OUT,
                w: part(w, 8192, 16384),
                b: part(w, 16384, 16448),
            },
            fc3: InferenceLinear {
                rows: L2_OUT,
                cols: L3_OUT,
                w: part(w, 16448, 18496),
                b: part(w, 18496, 18528),
            },
        };
        assert(net.flat() =~= w@);
        Some(net)
    }
}

fn push_all(out: &mut Vec<u32>, v: &Vec<u32>)
    ensures
        final(out)@ == old(out)@ + v@,
{
    let ghost before = out@;
    let n: usize = v.len();
    assert(before + v@.take(0) =~= before);
    for i in 0..n
        invariant
            n == v@.len(),
            out@ == before + v@.take(i as int),
    {
        out.push(v[i]);
        assert(out@ =~= before + v@.take(i + 1));
    }
    assert(v@.take(n as int) =~= v@);
}

fn part(v: &Vec<u32>, from: usize, to: usize) -> (r: Vec<u32>)
    requires
        from <= to <= v@.len(),
    ensures
        r@ == v@.subrange(from as int, to as int),
{
    let mut r: Vec<u32> = Vec::new();
    for i in from..to
        invariant
            from <= i <= to <= v@.len(),
            r@ == v@.subrange(from as int, i as int),
    {
        r.push(v[i]);
        assert(r@ =~= v@.subrange(from as int, i + 1));
    }
    r
}

/// Why weights are no projection.
#[derive(Clone, Copy, Debug, PartialEq, Eq, Structural)]
pub enum ProjectionError {
    /// There are none.
    Empty,
    /// There are this many behind the number of dimensions, which is given too.
    Length { found: usize, out_dim: usize },
}

/// The dimensions that weights begin with.
pub open spec fn dims_of(w: Seq<u32>) -> int {
    as_unsigned(w[0], usize::MAX as int)
}

/// Takes weights apart: the number of dimensions, as a floating-point number, and the
/// projection with that many rows.
pub fn projection_of(w: &Vec<u32>) -> (r: Result<(usize, Vec<u32>), ProjectionError>)
    ensures
        w@.len() == 0 ==> r == Err::<(usize, Vec<u32>), ProjectionError>(ProjectionError::Empty),
        w@.len() > 0 && w@.len() - 1 != dims_of(w@) * FEAT_LEN ==> r == Err::<
            (usize, Vec<u32>),
            ProjectionError,
        >(
            ProjectionError::Length {
                found: (w@.len() - 1) as usize,
                out_dim: dims_of(w@) as usize,
            },
        ),
        w@.len() > 0 && w@.len() - 1 == dims_of(w@) * FEAT_LEN ==> r is Ok && r->Ok_0.0 == dims_of(
            w@,
        ) && r->Ok_0.1@ == w@.skip(1),
{
    let n: usize = w.len();
    if n == 0 {
        return Err(ProjectionError::Empty);
    }
    let out_dim: usize = to_unsigned(w[0], usize::MAX as u64) as usize;
    assert(FEAT_LEN == 63);
    if (n - 1) as u128 != 63 * (out_dim as u128) {
        return Err(ProjectionError::Length { found: n - 1, out_dim });
    }
    let p: Vec<u32> = part(w, 1, n);
    assert(p@ =~= w@.skip(1));
    Ok((out_dim, p))
}

/// A row whose weights are a projection to `dims` dimensions, which its centroids have too.
pub open spec fn is_lda_row(row: ModelRow, dims: int) -> bool {
    &&& row.wf()
    &&& row.weights.len() == 1 + dims * FEAT_LEN
    &&& is_whole(row.weights[0], dims)
    &&& row.vecs.len() > 0 ==> row.dim() == dims
}

/// The weights of a row begin with its dimensions.
pub proof fn lemma_lda_dims(row: ModelRow, dims: int)
    requires
        is_lda_row(row, dims),
        0 <= dims < FEAT_LEN,
    ensures
        dims_of(row.weights) == dims,
{
    law_whole(row.weights[0], dims, usize::MAX as int);
}

/// Makes the entry of a sequence: the number of dimensions, as a floating-point number, and
/// the projection behind it, with the projected glyphs.
pub fn lda_entry(
    dims: usize,
    projection: &Vec<u32>,
    centroids: Vec<(u32, Vec<u32>)>,
    sigma_sq: u32,
    med_nn: u32,
) -> (m: ImageModel)
    requires
        dims < FEAT_LEN,
        projection@.len() == dims * FEAT_LEN,
        forall|i: int| 0 <= i < centroids@.len() ==> (#[trigger] centroids@[i]).1@.len() == dims,
    ensures
        is_lda_row(m.row(), dims as int),
        m.weights@.skip(1) == projection@,
        m.centroids@ == centroids@,
        m.sigma_sq == sigma_sq,
        m.med_nn == med_nn,
{
    let n: usize = projection.len();
    let mut weights: Vec<u32> = Vec::new();
    weights.push(whole_number(dims as u32));
    let ghost first = weights@[0];
    for i in 0..n
        invariant
            n == projection@.len(),
            weights@ == seq![first] + projection@.take(i as int),
    {
        weights.push(projection[i]);
        assert(weights@ =~= seq![first] + projection@.take(i + 1));
    }
    assert(projection@.take(n as int) =~= projection@);
    assert(weights@.skip(1) =~= projection@);
    let m = ImageModel { weights, centroids, sigma_sq, med_nn };
    assert forall|i: int| 0 <= i < m.row().vecs.len() implies (#[trigger] m.row().vecs[i]).len()
        == m.row().dim() by {
        assert(m.row().vecs[i] == centroids@[i].1@);
        assert(m.row().vecs[0] == centroids@[0].1@);
    }
    m
}

/// Weights as long as a feature vector: those that are there, zeros behind them.
pub fn padded_weights(w: &Vec<u32>) -> (r: Vec<u32>)
    ensures
        r@ == Seq::new(
            FEAT_LEN as nat,
            |i: int|
                if i < w@.len() {
                    w@[i]
                } else {
                    0u32
                },
        ),
{
    let n: usize = w.len();
    let mut r: Vec<u32> = Vec::new();
    for i in 0..FEAT_LEN
        invariant
            n == w@.len(),
            r@.len() == i,
            forall|k: int|
                0 <= k < i ==> #[trigger] r@[k] == (if k < w@.len() {
                    w@[k]
                } else {
                    0u32
                }),
    {
        r.push(
            if i < n {
                w[i]
            } else {
                0
            },
        );
    }
    assert(r@ =~= Seq::new(
        FEAT_LEN as nat,
        |i: int|
            if i < w@.len() {
                w@[i]
            } else {
                0u32
            },
    ));
    r
}

// --- What is drawn and ranked ---

/// The samples of a glyph are listed in ascending order, each once, and all of them.
pub proof fn law_members(ids: Seq<u32>, id: u32)
    requires
        ids.len() <= usize::MAX,
    ensures
        forall|i: usize| #[trigger]
            members_of(ids, id, ids.len() as int).contains(i) <==> i < ids.len() && ids[i as int]
                == id,
        forall|j: int, k: int|
            0 <= j < k < members_of(ids, id, ids.len() as int).len() ==> members_of(
                ids,
                id,
                ids.len() as int,
            )[j] < members_of(ids, id, ids.len() as int)[k],
{
    let n = ids.len() as int;
    assert forall|i: usize| #[trigger] members_of(ids, id, n).contains(i) <==> i < ids.len()
        && ids[i as int] == id by {
        lemma_members(ids, id, n, i);
    }
    lemma_members_ascend(ids, id, n);
}

proof fn lemma_members_ascend(ids: Seq<u32>, id: u32, n: int)
    requires
        0 <= n <= ids.len() <= usize::MAX,
    ensures
        forall|j: int| 0 <= j < members_of(ids, id, n).len() ==> #[trigger] members_of(ids, id, n)[j]
            < n,
        forall|j: int, k: int|
            0 <= j < k < members_of(ids, id, n).len() ==> members_of(ids, id, n)[j] < members_of(
                ids,
                id,
                n,
            )[k],
    decreases n,
{
    if n > 0 {
        lemma_members_ascend(ids, id, n - 1);
        let before = members_of(ids, id, n - 1);
        let s = members_of(ids, id, n);
        assert forall|j: int| 0 <= j < s.len() implies #[trigger] s[j] < n by {
            if j < before.len() {
                assert(s[j] == before[j]);
            }
        }
        assert forall|j: int, k: int| 0 <= j < k < s.len() implies s[j] < s[k] by {
            assert(s[j] == before[j]);
            if k < before.len() {
                assert(s[k] == before[k]);
            }
        }
    }
}

/// All pairs of a group are drawn, but five at most: a group of four or more has more.
pub proof fn law_pairs_drawn(n: int)
    requires
        0 <= n,
    ensures
        0 <= pairs_drawn(n) <= 5,
        n <= 1 ==> pairs_drawn(n) == 0,
        n <= 3 ==> 2 * pairs_drawn(n) == n * (n - 1),
        n >= 4 ==> pairs_drawn(n) == 5,
{
    if n >= 4 {
        assert(n * (n - 1) >= 12) by (nonlinear_arith)
            requires
                n >= 4,
        ;
    } else if n == 0 {
        assert(0 * (0 - 1) == 0) by (nonlinear_arith);
    } else if n == 1 {
        assert(1 * (1 - 1) == 0) by (nonlinear_arith);
    } else if n == 2 {
        assert(2 * (2 - 1) == 2) by (nonlinear_arith);
    } else {
        assert(3 * (3 - 1) == 6) by (nonlinear_arith);
    }
}

/// No batch has more samples than asked for, and all but the last have as many.
pub proof fn law_batch_size(size: int, n: int, k: int)
    requires
        0 < size,
        0 <= k,
        k * size < n,
    ensures
        0 < batch(k, size, n).1 - batch(k, size, n).0 <= size,
        (k + 1) * size <= n ==> batch(k, size, n).1 - batch(k, size, n).0 == size,
{
    assert((k + 1) * size == k * size + size) by (nonlinear_arith);
}

/// The rank of the right candidate is zero exactly if none is nearer, and it is the number of
/// those that are.
pub proof fn law_rank(d: Seq<u32>, right: int)
    requires
        0 <= right < d.len(),
    ensures
        tally(nearer(d, right), d.len() as int) == tally(
            |j: int| d[j] < d[right],
            d.len() as int,
        ),
        tally(nearer(d, right), d.len() as int) == 0 <==> forall|j: int|
            0 <= j < d.len() ==> d[right] <= #[trigger] d[j],
        0 <= tally(nearer(d, right), d.len() as int) < d.len(),
{
    let n = d.len() as int;
    let p = nearer(d, right);
    crate::counting::lemma_tally_same(p, |j: int| d[j] < d[right], n);
    crate::counting::lemma_tally_bounds(p, n);
    if forall|j: int| 0 <= j < d.len() ==> d[right] <= #[trigger] d[j] {
        crate::counting::lemma_tally_none(p, n);
    } else {
        let j = choose|j: int| 0 <= j < d.len() && d[right] > #[trigger] d[j];
        crate::counting::lemma_tally_positive(p, j, n);
    }
    crate::counting::lemma_tally_strict(p, |j: int| true, right, n);
    crate::counting::lemma_tally_bounds(|j: int| true, n);
}

/// The weights of a triplet network are those of its three layers: of each the weights, then
/// the biases.
pub proof fn law_net_layout(net: GlyphNet)
    requires
        net.wf(),
    ensures
        net.flat().len() == 18528,
        net.flat().subrange(0, 8064) == net.fc1.w@,
        net.flat().subrange(8064, 8192) == net.fc1.b@,
        net.flat().subrange(8192, 16384) == net.fc2.w@,
        net.flat().subrange(16384, 16448) == net.fc2.b@,
        net.flat().subrange(16448, 18496) == net.fc3.w@,
        net.flat().subrange(18496, 18528) == net.fc3.b@,
{
    assert(net.flat().subrange(0, 8064) =~= net.fc1.w@);
    assert(net.flat().subrange(8064, 8192) =~= net.fc1.b@);
    assert(net.flat().subrange(8192, 16384) =~= net.fc2.w@);
    assert(net.flat().subrange(16384, 16448) =~= net.fc2.b@);
    assert(net.flat().subrange(16448, 18496) =~= net.fc3.w@);
    assert(net.flat().subrange(18496, 18528) =~= net.fc3.b@);
}

/// The numbers of a sorted set stand strictly in ascending order, each of those that were given
/// is among them, and no other one.
pub proof fn law_sorted_set(ids: Seq<u32>, v: Seq<u32>, i: int, j: int)
    requires
        is_sorted_set(ids, ids.len() as int, v),
    ensures
        0 <= i < ids.len() ==> v.contains(ids[i]),
        0 <= j < v.len() ==> ids.contains(v[j]),
        0 <= i < j < v.len() ==> v[i] < v[j],
{
    assert(ids.take(ids.len() as int) =~= ids);
    if 0 <= i < ids.len() {
        assert(ids.contains(ids[i]));
    }
    if 0 <= j < v.len() {
        assert(v.contains(v[j]));
    }
}


} // verus!
