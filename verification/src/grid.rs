//! Binary masks on a rectangular grid, addressed by flat row-major index.

use std::collections::VecDeque;
use vstd::prelude::*;
use crate::counting::{tally, lemma_tally_bounds, lemma_tally_strict};

verus! {

/// `j` is one of the up to four cells that share an edge with cell `i`.
pub open spec fn adjacent(w: int, h: int, i: int, j: int) -> bool {
    &&& 0 <= i < w * h
    &&& {
        ||| (j == i - 1 && i % w > 0)
        ||| (j == i + 1 && i % w + 1 < w)
        ||| (j == i - w && i / w > 0)
        ||| (j == i + w && i / w + 1 < h)
    }
}

/// Cell `i` lies in the first or last row or column.
pub open spec fn on_border(w: int, h: int, i: int) -> bool {
    &&& 0 <= i < w * h
    &&& (i % w == 0 || i % w == w - 1 || i / w == 0 || i / w == h - 1)
}

/// `p` is a walk over adjacent cells of `open`.
pub open spec fn is_walk(open: Seq<bool>, w: int, h: int, p: Seq<int>) -> bool {
    &&& p.len() > 0
    &&& forall|k: int| 0 <= k < p.len() ==> 0 <= #[trigger] p[k] < open.len() && open[p[k]]
    &&& forall|k: int| 0 < k < p.len() ==> adjacent(w, h, p[k - 1], #[trigger] p[k])
}

/// Some walk over `open` leads from `a` to `b`.
pub open spec fn connected(open: Seq<bool>, w: int, h: int, a: int, b: int) -> bool {
    exists|p: Seq<int>| #[trigger] is_walk(open, w, h, p) && p[0] == a && p.last() == b
}

/// A border cell of `open` is connected to `i`.
pub open spec fn open_to_border(open: Seq<bool>, w: int, h: int, i: int) -> bool {
    exists|a: int| on_border(w, h, a) && #[trigger] connected(open, w, h, a, i)
}

/// `i` is the first cell of its connected component of `open`.
pub open spec fn component_head(open: Seq<bool>, w: int, h: int) -> spec_fn(int) -> bool {
    |i: int| open[i] && forall|j: int| 0 <= j < i ==> !#[trigger] connected(open, w, h, j, i)
}

/// The number of connected components of `open`.
pub open spec fn component_count(open: Seq<bool>, w: int, h: int) -> int {
    tally(component_head(open, w, h), w * h)
}

/// The cells that are not ink.
pub open spec fn paper(ink: Seq<bool>) -> Seq<bool> {
    Seq::new(ink.len(), |i: int| !ink[i])
}

/// The paper cells that are cut off from the border: the inside of counters.
pub open spec fn enclosed(ink: Seq<bool>, w: int, h: int) -> Seq<bool> {
    Seq::new(ink.len(), |i: int| !ink[i] && !open_to_border(paper(ink), w, h, i))
}

/// Row and column of a cell of a `w` by `h` grid.
pub proof fn lemma_cell(w: int, h: int, i: int)
    requires
        0 <= i < w * h,
        0 <= w,
        0 <= h,
    ensures
        0 < w,
        0 < h,
        0 <= i / w < h,
        0 <= i % w < w,
        i == (i / w) * w + i % w,
        i / w > 0 ==> i - w >= 0,
        i / w + 1 < h ==> i + w < w * h,
        i % w + 1 < w ==> i + 1 < w * h,
        (i / w) * w <= i,
{
    assert(0 < w && 0 < h) by (nonlinear_arith)
        requires
            0 <= i < w * h,
            0 <= w,
            0 <= h,
    ;
    let y = i / w;
    let x = i % w;
    assert(i == y * w + x && 0 <= x < w && 0 <= y) by (nonlinear_arith)
        requires
            0 < w,
            0 <= i,
            y == i / w,
            x == i % w,
    ;
    assert(y < h) by (nonlinear_arith)
        requires
            y * w + x < w * h,
            0 <= x,
            0 < w,
    ;
    if y > 0 {
        assert(y * w >= w) by (nonlinear_arith)
            requires
                y >= 1,
                w > 0,
        ;
    }
    if y + 1 < h {
        assert(y * w + 2 * w <= w * h) by (nonlinear_arith)
            requires
                y + 2 <= h,
                w > 0,
        ;
    }
    assert(y * w + w <= w * h) by (nonlinear_arith)
        requires
            y + 1 <= h,
            w > 0,
    ;
}

/// The flat index of row `y`, column `x` is a cell, and row and column come back.
pub proof fn lemma_flat(w: int, h: int, x: int, y: int)
    requires
        0 <= x < w,
        0 <= y < h,
    ensures
        0 <= y * w + x < w * h,
        (y * w + x) / w == y,
        (y * w + x) % w == x,
        0 <= y * w,
        y * w + w <= w * h,
{
    assert(0 <= y * w) by (nonlinear_arith)
        requires
            0 <= y,
            0 < w,
    ;
    assert(y * w + w <= w * h) by (nonlinear_arith)
        requires
            y + 1 <= h,
            w > 0,
    ;
    let i = y * w + x;
    vstd::arithmetic::div_mod::lemma_fundamental_div_mod_converse(i, w, y, x);
}

/// Walks may be extended by one adjacent open cell.
pub proof fn lemma_extend_walk(open: Seq<bool>, w: int, h: int, a: int, i: int, j: int)
    requires
        connected(open, w, h, a, i),
        adjacent(w, h, i, j),
        0 <= j < open.len(),
        open[j],
    ensures
        connected(open, w, h, a, j),
{
    let p = choose|p: Seq<int>| #[trigger] is_walk(open, w, h, p) && p[0] == a && p.last() == i;
    let q = p.push(j);
    assert forall|k: int| 0 < k < q.len() implies adjacent(w, h, q[k - 1], #[trigger] q[k]) by {
        if k < p.len() {
            assert(q[k] == p[k]);
        }
    }
    assert(is_walk(open, w, h, q));
    assert(q[0] == a && q.last() == j);
}

/// An open cell is connected to itself.
pub proof fn lemma_self_connected(open: Seq<bool>, w: int, h: int, a: int)
    requires
        0 <= a < open.len(),
        open[a],
    ensures
        connected(open, w, h, a, a),
{
    let p = seq![a];
    assert(is_walk(open, w, h, p));
    assert(p[0] == a && p.last() == a);
}

/// Every open neighbour of `i` is marked.
pub open spec fn surrounded(open: Seq<bool>, marked: Seq<bool>, w: int, h: int, i: int) -> bool {
    forall|j: int| #[trigger]
        adjacent(w, h, i, j) && 0 <= j < open.len() && open[j] ==> marked[j]
}

/// A marked set that is closed under open neighbours holds all that its cells are connected to.
pub proof fn lemma_closed_set(
    open: Seq<bool>,
    marked: Seq<bool>,
    w: int,
    h: int,
    a: int,
    b: int,
)
    requires
        open.len() == marked.len(),
        forall|i: int|
            0 <= i < marked.len() && #[trigger] marked[i] ==> surrounded(open, marked, w, h, i),
        0 <= a < marked.len(),
        marked[a],
        connected(open, w, h, a, b),
    ensures
        0 <= b < marked.len(),
        marked[b],
{
    let p = choose|p: Seq<int>| #[trigger] is_walk(open, w, h, p) && p[0] == a && p.last() == b;
    lemma_closed_walk(open, marked, w, h, p, p.len() - 1);
}

proof fn lemma_closed_walk(
    open: Seq<bool>,
    marked: Seq<bool>,
    w: int,
    h: int,
    p: Seq<int>,
    k: int,
)
    requires
        open.len() == marked.len(),
        forall|i: int|
            0 <= i < marked.len() && #[trigger] marked[i] ==> surrounded(open, marked, w, h, i),
        is_walk(open, w, h, p),
        0 <= p[0] < marked.len(),
        marked[p[0]],
        0 <= k < p.len(),
    ensures
        0 <= p[k] < marked.len(),
        marked[p[k]],
    decreases k,
{
    if k > 0 {
        lemma_closed_walk(open, marked, w, h, p, k - 1);
        assert(surrounded(open, marked, w, h, p[k - 1]));
        assert(adjacent(w, h, p[k - 1], p[k]));
    }
}

/// The cells still unmarked, as a predicate on indices.
pub open spec fn unmarked(marked: Seq<bool>) -> spec_fn(int) -> bool {
    |i: int| !marked[i]
}

/// Marks `j` and queues it, if it is open and not marked yet.
fn visit(open: &[bool], marked: &mut Vec<bool>, queue: &mut VecDeque<usize>, j: usize)
    requires
        j < open@.len(),
        open@.len() == old(marked)@.len(),
    ensures
        open@[j as int] && !old(marked)@[j as int] ==> {
            &&& final(marked)@ == old(marked)@.update(j as int, true)
            &&& final(queue)@ == old(queue)@.push(j)
        },
        !(open@[j as int] && !old(marked)@[j as int]) ==> {
            &&& final(marked)@ == old(marked)@
            &&& final(queue)@ == old(queue)@
        },
{
    if open[j] && !marked[j] {
        marked.set(j, true);
        queue.push_back(j);
    }
}

/// What holds of a partly finished fill: `seeds` are the cells marked at its start, and
/// every marked cell is either still queued or has all its open neighbours marked.
pub open spec fn filling(
    open: Seq<bool>,
    w: int,
    h: int,
    seeds: Seq<bool>,
    marked: Seq<bool>,
    queue: Seq<usize>,
) -> bool {
    &&& open.len() == w * h
    &&& marked.len() == w * h
    &&& seeds.len() == w * h
    &&& forall|i: int| 0 <= i < seeds.len() && seeds[i] ==> #[trigger] marked[i]
    &&& forall|i: int|
        0 <= i < marked.len() && #[trigger] marked[i] ==> {
            &&& open[i]
            &&& reached(open, w, h, seeds, i)
            &&& (queue.contains(i as usize) || surrounded(open, marked, w, h, i))
        }
    &&& forall|k: int| 0 <= k < queue.len() ==> (#[trigger] queue[k]) < marked.len()
        && marked[queue[k] as int]
}

/// Some seed is connected to `i`.
pub open spec fn reached(open: Seq<bool>, w: int, h: int, seeds: Seq<bool>, i: int) -> bool {
    exists|a: int|
        0 <= a < seeds.len() && seeds[a] && #[trigger] connected(open, w, h, a, i)
}

/// One call of `visit` on a neighbour of `c`, which has just left the queue, keeps the fill going.
proof fn lemma_visit(
    open: Seq<bool>,
    w: int,
    h: int,
    seeds: Seq<bool>,
    m0: Seq<bool>,
    q0: Seq<usize>,
    m1: Seq<bool>,
    q1: Seq<usize>,
    c: int,
    j: int,
)
    requires
        0 <= w,
        0 <= h,
        0 <= c < w * h <= usize::MAX,
        m0.len() == w * h,
        m0[c],
        adjacent(w, h, c, j),
        0 <= j < w * h,
        filling_but(open, w, h, seeds, m0, q0, c),
        open[j] && !m0[j] ==> m1 == m0.update(j, true) && q1 == q0.push(j as usize),
        !(open[j] && !m0[j]) ==> m1 == m0 && q1 == q0,
    ensures
        filling_but(open, w, h, seeds, m1, q1, c),
        open[j] ==> m1[j],
        forall|i: int| 0 <= i < m0.len() && m0[i] ==> #[trigger] m1[i],
        m1.len() == m0.len(),
        m1[c],
        tally(unmarked(m1), w * h) <= tally(unmarked(m0), w * h),
        m1 != m0 ==> tally(unmarked(m1), w * h) < tally(unmarked(m0), w * h),
        m1 == m0 ==> q1 == q0,
{
    if open[j] && !m0[j] {
        assert(q1.last() == j as usize);
        assert(q1.contains(j as usize)) by {
            assert(q1[q1.len() - 1] == j as usize);
        }
        assert forall|i: int| 0 <= i < m1.len() && #[trigger] m1[i] implies {
            &&& open[i]
            &&& reached(open, w, h, seeds, i)
            &&& (i == c || q1.contains(i as usize) || surrounded(open, m1, w, h, i))
        } by {
            if i == j {
                assert(m0[c]);
                let a = choose|a: int|
                    0 <= a < seeds.len() && seeds[a] && #[trigger] connected(open, w, h, a, c);
                lemma_extend_walk(open, w, h, a, c, j);
            } else {
                assert(m0[i]);
                if q0.contains(i as usize) {
                    let k = choose|k: int| 0 <= k < q0.len() && q0[k] == i as usize;
                    assert(q1[k] == i as usize);
                } else if i != c {
                    assert(surrounded(open, m0, w, h, i));
                    assert forall|n: int| #[trigger]
                        adjacent(w, h, i, n) && 0 <= n < open.len() && open[n] implies m1[n] by {
                        assert(m0[n]);
                    }
                }
            }
        }
        assert forall|k: int| 0 <= k < q1.len() implies (#[trigger] q1[k]) < m1.len()
            && m1[q1[k] as int] by {
            if k < q0.len() {
                assert(q1[k] == q0[k]);
            }
        }
        lemma_tally_strict(unmarked(m1), unmarked(m0), j, w * h);
    }
}

/// As `filling`, but for the cell `c` whose neighbours are being visited.
pub open spec fn filling_but(
    open: Seq<bool>,
    w: int,
    h: int,
    seeds: Seq<bool>,
    marked: Seq<bool>,
    queue: Seq<usize>,
    c: int,
) -> bool {
    &&& open.len() == w * h
    &&& marked.len() == w * h
    &&& seeds.len() == w * h
    &&& forall|i: int| 0 <= i < seeds.len() && seeds[i] ==> #[trigger] marked[i]
    &&& forall|i: int|
        0 <= i < marked.len() && #[trigger] marked[i] ==> {
            &&& open[i]
            &&& reached(open, w, h, seeds, i)
            &&& (i == c || queue.contains(i as usize) || surrounded(open, marked, w, h, i))
        }
    &&& forall|k: int| 0 <= k < queue.len() ==> (#[trigger] queue[k]) < marked.len()
        && marked[queue[k] as int]
}

/// Visits the four neighbours of `idx`, a cell that has just left the queue.
fn visit_around(
    open: &[bool],
    w: usize,
    h: usize,
    marked: &mut Vec<bool>,
    queue: &mut VecDeque<usize>,
    idx: usize,
    Ghost(seeds): Ghost<Seq<bool>>,
)
    requires
        idx < w * h,
        old(marked)@[idx as int],
        filling_but(open@, w as int, h as int, seeds, old(marked)@, old(queue)@, idx as int),
    ensures
        filling_but(open@, w as int, h as int, seeds, final(marked)@, final(queue)@, idx as int),
        surrounded(open@, final(marked)@, w as int, h as int, idx as int),
        tally(unmarked(final(marked)@), w * h) < tally(unmarked(old(marked)@), w * h) || (
        final(marked)@ == old(marked)@ && final(queue)@ == old(queue)@),
{
    let ghost c = idx as int;
    let n_cells: usize = marked.len();
    proof {
        lemma_cell(w as int, h as int, c);
    }
    let x: usize = idx % w;
    let y: usize = idx / w;
    if x > 0 {
        let ghost m0 = marked@;
        let ghost q0 = queue@;
        visit(open, marked, queue, idx - 1);
        proof {
            lemma_visit(open@, w as int, h as int, seeds, m0, q0, marked@, queue@, c, c - 1);
        }
    }
    if x + 1 < w {
        let ghost m0 = marked@;
        let ghost q0 = queue@;
        visit(open, marked, queue, idx + 1);
        proof {
            lemma_visit(open@, w as int, h as int, seeds, m0, q0, marked@, queue@, c, c + 1);
        }
    }
    if y > 0 {
        let ghost m0 = marked@;
        let ghost q0 = queue@;
        visit(open, marked, queue, idx - w);
        proof {
            lemma_visit(open@, w as int, h as int, seeds, m0, q0, marked@, queue@, c, c - w);
        }
    }
    if y + 1 < h {
        let ghost m0 = marked@;
        let ghost q0 = queue@;
        visit(open, marked, queue, idx + w);
        proof {
            lemma_visit(open@, w as int, h as int, seeds, m0, q0, marked@, queue@, c, c + w);
        }
    }
}

/// Finishes a fill: marks every open cell that a marked one is connected to.
fn spread(
    open: &[bool],
    w: usize,
    h: usize,
    marked: &mut Vec<bool>,
    start: VecDeque<usize>,
)
    requires
        filling(open@, w as int, h as int, old(marked)@, old(marked)@, start@),
    ensures
        final(marked)@.len() == open@.len(),
        forall|i: int|
            0 <= i < open@.len() ==> (#[trigger] final(marked)@[i] <==> reached(
                open@,
                w as int,
                h as int,
                old(marked)@,
                i,
            )),
        forall|i: int|
            0 <= i < open@.len() && #[trigger] final(marked)@[i] ==> surrounded(
                open@,
                final(marked)@,
                w as int,
                h as int,
                i,
            ),
{
    let ghost seeds = marked@;
    let mut queue = start;
    while queue.len() > 0
        invariant
            filling(open@, w as int, h as int, seeds, marked@, queue@),
        decreases tally(unmarked(marked@), w * h), queue@.len(),
    {
        let ghost q_old = queue@;
        let idx: usize = match queue.pop_front() {
            Some(i) => i,
            None => 0,
        };
        let ghost c = idx as int;
        let n_cells: usize = marked.len();
        assert(q_old[0] == idx);
        assert(filling_but(open@, w as int, h as int, seeds, marked@, queue@, c)) by {
            assert forall|k: int| 0 <= k < queue@.len() implies (#[trigger] queue@[k])
                < marked@.len() && marked@[queue@[k] as int] by {
                assert(queue@[k] == q_old[k + 1]);
            }
            assert forall|i: int| 0 <= i < marked@.len() && #[trigger] marked@[i] implies (i == c
                || queue@.contains(i as usize) || surrounded(
                open@,
                marked@,
                w as int,
                h as int,
                i,
            )) by {
                assert(i < n_cells);
                if i != c && q_old.contains(i as usize) {
                    let k = choose|k: int| 0 <= k < q_old.len() && q_old[k] == i as usize;
                    assert(k > 0);
                    assert(queue@[k - 1] == i as usize);
                }
            }
        }
        visit_around(open, w, h, marked, &mut queue, idx, Ghost(seeds));
        proof {
            lemma_tally_bounds(unmarked(marked@), w * h);
        }
    }
    proof {
        assert forall|i: int| 0 <= i < open@.len() && #[trigger] marked@[i] implies surrounded(
            open@,
            marked@,
            w as int,
            h as int,
            i,
        ) by {
            assert(!queue@.contains(i as usize));
        }
        assert forall|i: int| 0 <= i < open@.len() implies (#[trigger] marked@[i] <==> reached(
            open@,
            w as int,
            h as int,
            seeds,
            i,
        )) by {
            if reached(open@, w as int, h as int, seeds, i) {
                let a = choose|a: int|
                    0 <= a < seeds.len() && seeds[a] && #[trigger] connected(
                        open@,
                        w as int,
                        h as int,
                        a,
                        i,
                    );
                assert(marked@[a]);
                lemma_closed_set(open@, marked@, w as int, h as int, a, i);
            }
        }
    }
}


/// The cells of a mask whose value is not `ink`.
fn paper_of(ink: &[bool]) -> (r: Vec<bool>)
    ensures
        r@ == paper(ink@),
{
    let mut out: Vec<bool> = Vec::new();
    let n: usize = ink.len();
    for i in 0..n
        invariant
            n == ink@.len(),
            out@.len() == i,
            forall|k: int| 0 <= k < i ==> out@[k] == !ink@[k],
    {
        out.push(!ink[i]);
    }
    assert(out@ =~= paper(ink@));
    out
}

/// Marks all paper cells that are reachable from the border of the mask.
pub fn flood_fill_from_edges(ink_mask: &[bool], w: usize, h: usize) -> (reachable: Vec<bool>)
    requires
        ink_mask@.len() == w * h,
    ensures
        reachable@.len() == ink_mask@.len(),
        forall|i: int|
            0 <= i < reachable@.len() ==> (#[trigger] reachable@[i] <==> open_to_border(
                paper(ink_mask@),
                w as int,
                h as int,
                i,
            )),
{
    let open: Vec<bool> = paper_of(ink_mask);
    let total: usize = ink_mask.len();
    let mut reachable: Vec<bool> = vec![false; total];
    let mut queue: VecDeque<usize> = VecDeque::new();
    for i in 0..total
        invariant
            total == w * h,
            open@.len() == total,
            reachable@.len() == total,
            forall|k: int|
                0 <= k < total ==> (#[trigger] reachable@[k] <==> k < i && open@[k] && on_border(
                    w as int,
                    h as int,
                    k,
                )),
            forall|k: int| 0 <= k < i && #[trigger] reachable@[k] ==> queue@.contains(k as usize),
            forall|k: int| 0 <= k < queue@.len() ==> (#[trigger] queue@[k]) < total
                && reachable@[queue@[k] as int],
    {
        proof {
            lemma_cell(w as int, h as int, i as int);
        }
        let x: usize = i % w;
        let y: usize = i / w;
        if x == 0 || x == w - 1 || y == 0 || y == h - 1 {
            let ghost q0 = queue@;
            let ghost r0 = reachable@;
            visit(open.as_slice(), &mut reachable, &mut queue, i);
            proof {
                assert forall|k: int| 0 <= k < i + 1 && #[trigger] reachable@[k] implies queue@.contains(
                    k as usize,
                ) by {
                    if k == i {
                        assert(queue@[queue@.len() - 1] == i);
                    } else {
                        assert(r0[k]);
                        let n = choose|n: int| 0 <= n < q0.len() && q0[n] == k as usize;
                        assert(queue@[n] == k as usize);
                    }
                }
            }
        }
    }
    let ghost seeds = reachable@;
    proof {
        assert forall|i: int| 0 <= i < total && #[trigger] reachable@[i] implies reached(
            open@,
            w as int,
            h as int,
            seeds,
            i,
        ) by {
            lemma_self_connected(open@, w as int, h as int, i);
        }
    }
    spread(open.as_slice(), w, h, &mut reachable, queue);
    proof {
        assert forall|i: int| 0 <= i < total implies (reached(
            open@,
            w as int,
            h as int,
            seeds,
            i,
        ) <==> #[trigger] open_to_border(open@, w as int, h as int, i)) by {
            if open_to_border(open@, w as int, h as int, i) {
                let a = choose|a: int|
                    on_border(w as int, h as int, a) && #[trigger] connected(
                        open@,
                        w as int,
                        h as int,
                        a,
                        i,
                    );
                let p = choose|p: Seq<int>| #[trigger]
                    is_walk(open@, w as int, h as int, p) && p[0] == a && p.last() == i;
                assert(open@[p[0]]);
                assert(seeds[a]);
            }
        }
    }
    reachable
}

/// Counts the connected components of `open`.
pub fn count_components(open: &[bool], w: usize, h: usize) -> (n: usize)
    requires
        open@.len() == w * h,
    ensures
        n == component_count(open@, w as int, h as int),
{
    let total: usize = open.len();
    let mut visited: Vec<bool> = vec![false; total];
    let mut count: usize = 0;
    proof {
        assert forall|k: int, j: int| 0 <= j < 0 implies !connected(
            open@,
            w as int,
            h as int,
            j,
            k,
        ) by {}
    }
    for idx in 0..total
        invariant
            total == open@.len(),
            open@.len() == w * h,
            visited@.len() == total,
            count == tally(component_head(open@, w as int, h as int), idx as int),
            count <= idx,
            forall|k: int|
                0 <= k < total ==> (#[trigger] visited@[k] <==> exists|j: int|
                    0 <= j < idx && #[trigger] connected(open@, w as int, h as int, j, k)),
            forall|k: int|
                0 <= k < total && #[trigger] visited@[k] ==> open@[k] && surrounded(
                    open@,
                    visited@,
                    w as int,
                    h as int,
                    k,
                ),
    {
        let ghost v0 = visited@;
        if open[idx] && !visited[idx] {
            count = count + 1;
            visited.set(idx, true);
            let mut q: VecDeque<usize> = VecDeque::new();
            q.push_back(idx);
            let ghost seeds = visited@;
            proof {
                assert(q@[0] == idx);
                assert forall|i: int| 0 <= i < total && #[trigger] seeds[i] implies {
                    &&& open@[i]
                    &&& reached(open@, w as int, h as int, seeds, i)
                    &&& (q@.contains(i as usize) || surrounded(
                        open@,
                        seeds,
                        w as int,
                        h as int,
                        i,
                    ))
                } by {
                    lemma_self_connected(open@, w as int, h as int, i);
                    if i != idx {
                        assert(v0[i]);
                        assert forall|n: int| #[trigger]
                            adjacent(w as int, h as int, i, n) && 0 <= n < open@.len()
                                && open@[n] implies seeds[n] by {
                            assert(v0[n]);
                        }
                    }
                }
            }
            spread(open, w, h, &mut visited, q);
            proof {
                assert forall|k: int| 0 <= k < total implies (#[trigger] visited@[k] <==> exists|
                    j: int,
                | 0 <= j < idx + 1 && #[trigger] connected(open@, w as int, h as int, j, k)) by {
                    if visited@[k] {
                        let a = choose|a: int|
                            0 <= a < seeds.len() && seeds[a] && #[trigger] connected(
                                open@,
                                w as int,
                                h as int,
                                a,
                                k,
                            );
                        if a != idx {
                            assert(v0[a]);
                            lemma_closed_set(open@, v0, w as int, h as int, a, k);
                            assert(v0[k]);
                        }
                    }
                    if exists|j: int|
                        0 <= j < idx + 1 && #[trigger] connected(open@, w as int, h as int, j, k) {
                        let j = choose|j: int|
                            0 <= j < idx + 1 && #[trigger] connected(
                                open@,
                                w as int,
                                h as int,
                                j,
                                k,
                            );
                        if j < idx {
                            assert(v0[k]);
                            assert(seeds[k]);
                            lemma_self_connected(open@, w as int, h as int, k);
                        } else {
                            assert(seeds[j]);
                        }
                        assert(reached(open@, w as int, h as int, seeds, k));
                    }
                }
            }
        } else {
            proof {
                assert forall|k: int| 0 <= k < total implies (#[trigger] visited@[k] <==> exists|
                    j: int,
                | 0 <= j < idx + 1 && #[trigger] connected(open@, w as int, h as int, j, k)) by {
                    if connected(open@, w as int, h as int, idx as int, k) {
                        let p = choose|p: Seq<int>| #[trigger]
                            is_walk(open@, w as int, h as int, p) && p[0] == idx && p.last() == k;
                        assert(open@[p[0]]);
                        lemma_closed_set(open@, visited@, w as int, h as int, idx as int, k);
                    }
                }
            }
        }
    }
    count
}

/// The enclosed paper cells, given the reachable ones.
pub fn enclosed_cells(ink_mask: &[bool], reachable: &[bool]) -> (r: Vec<bool>)
    requires
        reachable@.len() == ink_mask@.len(),
    ensures
        r@ == Seq::new(ink_mask@.len(), |i: int| !ink_mask@[i] && !reachable@[i]),
{
    let mut out: Vec<bool> = Vec::new();
    let n: usize = ink_mask.len();
    for i in 0..n
        invariant
            n == ink_mask@.len(),
            n == reachable@.len(),
            out@.len() == i,
            forall|k: int| 0 <= k < i ==> out@[k] == (!ink_mask@[k] && !reachable@[k]),
    {
        out.push(!ink_mask[i] && !reachable[i]);
    }
    assert(out@ =~= Seq::new(ink_mask@.len(), |i: int| !ink_mask@[i] && !reachable@[i]));
    out
}

/// The number of holes of a mask: the connected components of what is neither ink nor
/// marked in `reachable`.
pub fn hole_count_from_reachable(
    ink_mask: &[bool],
    reachable: &[bool],
    w: usize,
    h: usize,
) -> (n: usize)
    requires
        ink_mask@.len() == w * h,
        reachable@.len() == w * h,
    ensures
        n == component_count(
            Seq::new(ink_mask@.len(), |i: int| !ink_mask@[i] && !reachable@[i]),
            w as int,
            h as int,
        ),
{
    let inside: Vec<bool> = enclosed_cells(ink_mask, reachable);
    count_components(inside.as_slice(), w, h)
}

/// A filled mask separates the paper: a paper cell is either reachable from the border or
/// enclosed, and no enclosed cell touches a reachable one.
pub proof fn law_enclosed_apart(ink: Seq<bool>, w: int, h: int, i: int, j: int)
    requires
        0 <= w,
        0 <= h,
        ink.len() == w * h,
        0 <= i < ink.len(),
        0 <= j < ink.len(),
        adjacent(w, h, i, j),
        !ink[i],
        enclosed(ink, w, h)[j],
    ensures
        enclosed(ink, w, h)[i],
        !on_border(w, h, j),
{
    let open = paper(ink);
    if open_to_border(open, w, h, i) {
        let a = choose|a: int| on_border(w, h, a) && #[trigger] connected(open, w, h, a, i);
        lemma_extend_walk(open, w, h, a, i, j);
    }
    if on_border(w, h, j) {
        lemma_self_connected(open, w, h, j);
    }
}

/// Two cells are neighbours exactly if they stand in one row in columns next to each other, or
/// in one column in rows next to each other.
pub proof fn law_neighbours(w: int, h: int, x: int, y: int, u: int, v: int)
    requires
        0 <= x < w,
        0 <= y < h,
        0 <= u < w,
        0 <= v < h,
    ensures
        adjacent(w, h, y * w + x, v * w + u) <==> (y == v && (u == x + 1 || x == u + 1)) || (x == u
            && (v == y + 1 || y == v + 1)),
        on_border(w, h, y * w + x) <==> x == 0 || x == w - 1 || y == 0 || y == h - 1,
{
    lemma_flat(w, h, x, y);
    lemma_flat(w, h, u, v);
    assert((y + 1) * w == y * w + w) by (nonlinear_arith);
    assert((y - 1) * w == y * w - w) by (nonlinear_arith);
    let i = y * w + x;
    let j = v * w + u;
    if j == i - 1 && x > 0 {
        lemma_flat(w, h, x - 1, y);
    }
    if j == i + 1 && x + 1 < w {
        lemma_flat(w, h, x + 1, y);
    }
    if j == i - w && y > 0 {
        lemma_flat(w, h, x, y - 1);
    }
    if j == i + w && y + 1 < h {
        lemma_flat(w, h, x, y + 1);
    }
}

/// Paper on the border is not enclosed, nor is paper next to paper that is not. Paper is
/// enclosed as soon as some set of paper cells holds it that has no border cell and all paper
/// neighbours of its cells.
pub proof fn law_enclosed(ink: Seq<bool>, w: int, h: int, pocket: Seq<bool>, i: int)
    requires
        0 <= w,
        0 <= h,
        ink.len() == w * h,
        pocket.len() == w * h,
        0 <= i < ink.len(),
        !ink[i],
    ensures
        on_border(w, h, i) ==> !enclosed(ink, w, h)[i],
        forall|j: int|
            0 <= j < ink.len() && !ink[j] && #[trigger] adjacent(w, h, j, i) && !enclosed(ink, w, h)[j]
                ==> !enclosed(ink, w, h)[i],
        pocket[i] && (forall|j: int|
            0 <= j < pocket.len() && #[trigger] pocket[j] ==> !ink[j] && !on_border(w, h, j)) && (
        forall|j: int, k: int|
            0 <= j < pocket.len() && 0 <= k < pocket.len() && pocket[j] && !ink[k]
                && #[trigger] adjacent(w, h, k, j) ==> pocket[k]) ==> enclosed(ink, w, h)[i],
{
    let open = paper(ink);
    if on_border(w, h, i) {
        lemma_self_connected(open, w, h, i);
    }
    assert forall|j: int|
        0 <= j < ink.len() && !ink[j] && #[trigger] adjacent(w, h, j, i) && !enclosed(ink, w, h)[j]
        implies !enclosed(ink, w, h)[i] by {
        let a = choose|a: int| on_border(w, h, a) && #[trigger] connected(open, w, h, a, j);
        lemma_extend_walk(open, w, h, a, j, i);
    }
    if pocket[i] && (forall|j: int|
        0 <= j < pocket.len() && #[trigger] pocket[j] ==> !ink[j] && !on_border(w, h, j)) && (forall|
        j: int,
        k: int,
    |
        0 <= j < pocket.len() && 0 <= k < pocket.len() && pocket[j] && !ink[k]
            && #[trigger] adjacent(w, h, k, j) ==> pocket[k]) {
        if open_to_border(open, w, h, i) {
            let a = choose|a: int| on_border(w, h, a) && #[trigger] connected(open, w, h, a, i);
            let outside = Seq::new(open.len(), |k: int| open[k] && !pocket[k]);
            let p = choose|p: Seq<int>| #[trigger] is_walk(open, w, h, p) && p[0] == a && p.last()
                == i;
            assert(0 <= p[0] < open.len() && open[p[0]]);
            assert(outside[a]);
            assert forall|j: int| 0 <= j < outside.len() && #[trigger] outside[j] implies surrounded(
                open,
                outside,
                w,
                h,
                j,
            ) by {
                assert forall|k: int| #[trigger]
                    adjacent(w, h, j, k) && 0 <= k < open.len() && open[k] implies outside[k] by {
                    if pocket[k] {
                        assert(pocket[j]);
                    }
                }
            }
            lemma_closed_set(open, outside, w, h, a, i);
        }
    }
}

/// Neighbouring open cells are connected, and what is connected to one is connected to the
/// other. No walk leaves a set that holds all open neighbours of its cells.
pub proof fn law_connected(open: Seq<bool>, w: int, h: int, inside: Seq<bool>, a: int, i: int, j: int)
    requires
        inside.len() == open.len(),
        0 <= a < open.len(),
        0 <= i < open.len(),
        0 <= j < open.len(),
        open[i],
    ensures
        connected(open, w, h, i, i),
        open[j] && adjacent(w, h, i, j) && connected(open, w, h, a, i) ==> connected(
            open,
            w,
            h,
            a,
            j,
        ),
        inside[a] && !inside[i] && (forall|k: int, l: int|
            0 <= k < open.len() && 0 <= l < open.len() && inside[k] && open[l] && #[trigger] adjacent(
                w,
                h,
                k,
                l,
            ) ==> inside[l]) ==> !connected(open, w, h, a, i),
{
    lemma_self_connected(open, w, h, i);
    if open[j] && adjacent(w, h, i, j) && connected(open, w, h, a, i) {
        lemma_extend_walk(open, w, h, a, i, j);
    }
    if inside[a] && !inside[i] && (forall|k: int, l: int|
        0 <= k < open.len() && 0 <= l < open.len() && inside[k] && open[l] && #[trigger] adjacent(
            w,
            h,
            k,
            l,
        ) ==> inside[l]) && connected(open, w, h, a, i) {
        assert forall|k: int| 0 <= k < inside.len() && #[trigger] inside[k] implies surrounded(
            open,
            inside,
            w,
            h,
            k,
        ) by {}
        lemma_closed_set(open, inside, w, h, a, i);
    }
}

/// Where all open cells are connected there is one component, where there are none there is
/// none, and two open cells that are not connected either way make at least two.
pub proof fn law_components(open: Seq<bool>, w: int, h: int)
    requires
        open.len() == w * h,
    ensures
        (forall|i: int| 0 <= i < open.len() ==> !#[trigger] open[i]) <==> component_count(open, w, h)
            == 0,
        (forall|i: int, j: int|
            0 <= i < open.len() && 0 <= j < open.len() && open[i] && open[j] ==> #[trigger] connected(
                open,
                w,
                h,
                i,
                j,
            )) ==> component_count(open, w, h) <= 1,
        (exists|i: int, j: int|
            0 <= i < j < open.len() && #[trigger] open[i] && #[trigger] open[j] && (forall|k: int|
                0 <= k < open.len() ==> !(#[trigger] connected(open, w, h, k, i) && connected(
                    open,
                    w,
                    h,
                    k,
                    j,
                )))) ==> component_count(open, w, h) >= 2,
{
    let p = component_head(open, w, h);
    let n = w * h;
    crate::counting::lemma_tally_bounds(p, n);
    if forall|i: int| 0 <= i < open.len() ==> !#[trigger] open[i] {
        crate::counting::lemma_tally_none(p, n);
    } else {
        let i = choose|i: int| 0 <= i < open.len() && #[trigger] open[i];
        let j = lemma_head_below(open, w, h, i);
        crate::counting::lemma_tally_positive(p, j, n);
    }
    if forall|i: int, j: int|
        0 <= i < open.len() && 0 <= j < open.len() && open[i] && open[j] ==> #[trigger] connected(
            open,
            w,
            h,
            i,
            j,
        ) {
        lemma_one_head(open, w, h, n);
    }
    if exists|i: int, j: int|
        0 <= i < j < open.len() && #[trigger] open[i] && #[trigger] open[j] && (forall|k: int|
            0 <= k < open.len() ==> !(#[trigger] connected(open, w, h, k, i) && connected(
                open,
                w,
                h,
                k,
                j,
            ))) {
        let (i, j) = choose|i: int, j: int|
            0 <= i < j < open.len() && #[trigger] open[i] && #[trigger] open[j] && (forall|k: int|
                0 <= k < open.len() ==> !(#[trigger] connected(open, w, h, k, i) && connected(
                    open,
                    w,
                    h,
                    k,
                    j,
                )));
        let a = lemma_head_below(open, w, h, i);
        let b = lemma_head_below(open, w, h, j);
        assert(a != b);
        let q = |k: int| p(k) && k != a;
        crate::counting::lemma_tally_change(q, p, a, n);
        crate::counting::lemma_tally_positive(q, b, n);
    }
}

proof fn lemma_head_below(open: Seq<bool>, w: int, h: int, i: int) -> (j: int)
    requires
        0 <= i < open.len(),
        open[i],
    ensures
        0 <= j <= i,
        component_head(open, w, h)(j),
        connected(open, w, h, j, i),
    decreases i,
{
    if component_head(open, w, h)(i) {
        lemma_self_connected(open, w, h, i);
        i
    } else {
        let k = choose|k: int| 0 <= k < i && #[trigger] connected(open, w, h, k, i);
        let p = choose|p: Seq<int>| #[trigger] is_walk(open, w, h, p) && p[0] == k && p.last() == i;
        assert(open[p[0]]);
        let j = lemma_head_below(open, w, h, k);
        let q = choose|q: Seq<int>| #[trigger] is_walk(open, w, h, q) && q[0] == j && q.last() == k;
        let r = q + p.subrange(1, p.len() as int);
        assert forall|m: int| 0 <= m < r.len() implies 0 <= #[trigger] r[m] < open.len()
            && open[r[m]] by {
            if m >= q.len() {
                assert(r[m] == p[m - q.len() + 1]);
            }
        }
        assert forall|m: int| 0 < m < r.len() implies adjacent(w, h, r[m - 1], #[trigger] r[m]) by {
            if m > q.len() {
                assert(r[m - 1] == p[m - q.len()]);
                assert(r[m] == p[m - q.len() + 1]);
            } else if m == q.len() {
                assert(r[m - 1] == p[0]);
                assert(r[m] == p[1]);
            } else {
                assert(r[m - 1] == q[m - 1]);
                assert(r[m] == q[m]);
            }
        }
        assert(is_walk(open, w, h, r));
        assert(r[0] == j);
        assert(r.last() == i) by {
            if p.len() > 1 {
                assert(r.last() == p.last());
            } else {
                assert(r =~= q);
            }
        }
        j
    }
}

proof fn lemma_one_head(open: Seq<bool>, w: int, h: int, n: int)
    requires
        0 <= n <= open.len(),
        forall|i: int, j: int|
            0 <= i < open.len() && 0 <= j < open.len() && open[i] && open[j] ==> #[trigger] connected(
                open,
                w,
                h,
                i,
                j,
            ),
    ensures
        tally(component_head(open, w, h), n) <= 1,
        tally(component_head(open, w, h), n) == 1 ==> exists|i: int| 0 <= i < n && #[trigger] open[i],
    decreases n,
{
    if n > 0 {
        let p = component_head(open, w, h);
        lemma_one_head(open, w, h, n - 1);
        if p(n - 1) && tally(p, n - 1) == 1 {
            let i = choose|i: int| 0 <= i < n - 1 && #[trigger] open[i];
            assert(connected(open, w, h, i, n - 1));
        }
        if tally(p, n) == 1 && tally(p, n - 1) == 1 {
            let i = choose|i: int| 0 <= i < n - 1 && #[trigger] open[i];
            assert(open[i]);
        } else if p(n - 1) {
            assert(open[n - 1]);
        }
    }
}

} // verus!
