//! Which fonts are scored on a line of text, and how their scores are ranked.

use rustc_hash::{FxHashMap, FxHashSet};
use vstd::prelude::*;
use vstd::string::*;
use crate::cache::NameSet;
use crate::counting::{tally, lemma_tally_implies};
use crate::features::{is_supported, supported};
use crate::float_bits::{exceeds, float_key, is_larger, is_nan, key_of};
use crate::sorting::{
    below, codes, codes_of, is_kth, is_stable_order, key_views, kth_smallest,
    lemma_ascending_indices, stable_order, up_to,
};
use crate::text::{chars_of, copy_of};

verus! {

/// The hasher of the maps and sets below.
#[verifier::external_type_specification]
#[verifier::external_body]
pub struct ExFxBuildHasher(rustc_hash::FxBuildHasher);

/// The texts in a set.
pub uninterp spec fn members(s: FxHashSet<String>) -> Set<Seq<char>>;

/// Calls `FxHashSet::default`, which gives a set without elements.
#[verifier::external_body]
fn empty_set() -> (s: FxHashSet<String>)
    ensures
        members(s) == Set::<Seq<char>>::empty(),
{
    FxHashSet::default()
}

/// Calls `FxHashSet::insert`, which adds an element.
#[verifier::external_body]
fn set_insert(s: &mut FxHashSet<String>, key: String)
    ensures
        members(*final(s)) == members(*old(s)).insert(key@),
{
    s.insert(key);
}

/// Calls `FxHashSet::contains`, which tells whether an element is there.
#[verifier::external_body]
fn set_contains(s: &FxHashSet<String>, key: &str) -> (r: bool)
    ensures
        r == members(*s).contains(key@),
{
    s.contains(key)
}

/// The entries of a map.
pub uninterp spec fn places(m: FxHashMap<(usize, usize), usize>) -> Map<(usize, usize), usize>;

/// No entries.
pub open spec fn no_places() -> Map<(usize, usize), usize> {
    Map::empty()
}

/// Calls `FxHashMap::default`, which gives a map without entries.
#[verifier::external_body]
fn empty_map() -> (m: FxHashMap<(usize, usize), usize>)
    ensures
        places(m) == no_places(),
{
    FxHashMap::default()
}

/// Calls `FxHashMap::insert`, which sets the value of a key.
#[verifier::external_body]
fn map_insert(m: &mut FxHashMap<(usize, usize), usize>, key: (usize, usize), value: usize)
    ensures
        places(*final(m)) == places(*old(m)).insert(key, value),
{
    m.insert(key, value);
}

/// Calls `FxHashMap::get`, which finds the value of a key.
#[verifier::external_body]
fn map_get(m: &FxHashMap<(usize, usize), usize>, key: (usize, usize)) -> (r: Option<usize>)
    ensures
        r == (if places(*m).dom().contains(key) {
            Some(places(*m)[key])
        } else {
            None
        }),
{
    m.get(&key).copied()
}

// --- Which fonts are looked at ---

/// The keys of fonts that are scored in any case.
pub struct EnsuredFonts {
    pub keys: FxHashSet<String>,
}

impl EnsuredFonts {
    pub open spec fn names(&self) -> Set<Seq<char>> {
        members(self.keys)
    }

    /// The fonts with the given keys.
    pub fn new(keys: &Vec<String>) -> (e: EnsuredFonts)
        ensures
            forall|k: Seq<char>| #[trigger]
                e.names().contains(k) <==> crate::text::texts(keys@).contains(k),
    {
        let n: usize = keys.len();
        let mut set: FxHashSet<String> = empty_set();
        for i in 0..n
            invariant
                n == keys@.len(),
                forall|k: Seq<char>| #[trigger]
                    members(set).contains(k) <==> exists|j: int|
                        0 <= j < i && (#[trigger] keys@[j])@ == k,
        {
            let ghost before = members(set);
            set_insert(&mut set, copy_of(keys[i].as_str()));
            proof {
                assert forall|k: Seq<char>| #[trigger] members(set).contains(k) <==> exists|j: int|
                    0 <= j < i + 1 && (#[trigger] keys@[j])@ == k by {
                    if before.contains(k) {
                        let j = choose|j: int| 0 <= j < i && (#[trigger] keys@[j])@ == k;
                        assert(0 <= j < i + 1);
                    }
                    if k == keys@[i as int]@ {
                        assert(0 <= i < i + 1);
                    }
                }
            }
        }
        let e = EnsuredFonts { keys: set };
        proof {
            let t = crate::text::texts(keys@);
            assert forall|k: Seq<char>| #[trigger] e.names().contains(k) <==> t.contains(k) by {
                if e.names().contains(k) {
                    let j = choose|j: int| 0 <= j < n && (#[trigger] keys@[j])@ == k;
                    assert(t[j] == k);
                }
                if t.contains(k) {
                    let j = choose|j: int| 0 <= j < t.len() && t[j] == k;
                    assert(keys@[j]@ == k);
                }
            }
        }
        e
    }

    /// Whether a font is scored in any case.
    pub fn contains(&self, key: &str) -> (r: bool)
        ensures
            r == self.names().contains(key@),
    {
        set_contains(&self.keys, key)
    }

    /// Whether a font is looked at: where fonts are restricted to a list, it has to be on
    /// it or to be scored in any case.
    pub fn considers(&self, key: &str, allowed: Option<&NameSet>) -> (r: bool)
        ensures
            r == (allowed is None || allowed->0@.contains(key@) || self.names().contains(key@)),
    {
        match allowed {
            None => true,
            Some(list) => list.contains(key) || self.contains(key),
        }
    }
}

// --- Where the characters of a word are ---

/// The ink rectangle of a character inside its word, borders included.
#[derive(Clone, Copy, Debug, PartialEq, Eq, Structural)]
pub struct CropBox {
    pub x_min: u32,
    pub x_max: u32,
    pub y_min: u32,
    pub y_max: u32,
}

impl CropBox {
    pub open spec fn wf(self) -> bool {
        self.x_min <= self.x_max < u32::MAX && self.y_min <= self.y_max < u32::MAX
    }

    /// How many pixels the rectangle has.
    pub open spec fn pixels(self) -> int {
        (self.x_max - self.x_min + 1) * (self.y_max - self.y_min + 1)
    }
}

/// A character of a word.
#[derive(Clone, Copy, Debug, PartialEq, Eq, Structural)]
pub struct Cell {
    pub ch: char,
    /// Its ink, where there is any.
    pub crop: Option<CropBox>,
    /// Whether its ink can be measured.
    pub featured: bool,
}

/// A word that is cut into characters.
pub struct WordCells {
    pub cells: Vec<Cell>,
    /// Where the cuts are.
    pub bounds: Vec<u32>,
    pub crop_h: u32,
}

/// The extent of a character.
#[derive(Clone, Copy, Debug, PartialEq, Eq, Structural)]
pub struct InkSpan {
    pub x_min: u32,
    pub x_max: u32,
    pub y_min: u32,
    pub y_max: u32,
    pub width: u32,
    pub height: u32,
    /// Where the character ends to the right.
    pub right: u32,
}

/// The extent of a character: that of its ink, or else what lies between the cuts, over
/// the whole height.
pub open spec fn span_of(word: WordCells, pos: int) -> InkSpan {
    match word.cells@[pos].crop {
        Some(b) => InkSpan {
            x_min: b.x_min,
            x_max: b.x_max,
            y_min: b.y_min,
            y_max: b.y_max,
            width: (b.x_max - b.x_min + 1) as u32,
            height: (b.y_max - b.y_min + 1) as u32,
            right: (b.x_max + 1) as u32,
        },
        None => {
            let (l, r) = if pos + 1 < word.bounds@.len() {
                (word.bounds@[pos], word.bounds@[pos + 1])
            } else {
                (0u32, word.crop_h)
            };
            InkSpan {
                x_min: l,
                x_max: r,
                y_min: 0,
                y_max: word.crop_h,
                width: if r >= l {
                    (r - l) as u32
                } else {
                    0
                },
                height: word.crop_h,
                right: r,
            }
        },
    }
}

impl WordCells {
    pub open spec fn wf(&self) -> bool {
        forall|i: int|
            0 <= i < self.cells@.len() && (#[trigger] self.cells@[i]).crop is Some
                ==> self.cells@[i].crop->0.wf()
    }

    /// The extent of each character.
    pub fn ink_spans(&self) -> (r: Vec<InkSpan>)
        requires
            self.wf(),
        ensures
            r@ == Seq::new(self.cells@.len(), |i: int| span_of(*self, i)),
    {
        let n: usize = self.cells.len();
        let mut r: Vec<InkSpan> = Vec::new();
        for i in 0..n
            invariant
                n == self.cells@.len(),
                self.wf(),
                r@.len() == i,
                forall|k: int| 0 <= k < i ==> #[trigger] r@[k] == span_of(*self, k),
        {
            let span = match self.cells[i].crop {
                Some(b) => {
                    assert(self.cells@[i as int].crop is Some);
                    InkSpan {
                        x_min: b.x_min,
                        x_max: b.x_max,
                        y_min: b.y_min,
                        y_max: b.y_max,
                        width: b.x_max - b.x_min + 1,
                        height: b.y_max - b.y_min + 1,
                        right: b.x_max + 1,
                    }
                },
                None => {
                    let (left, right): (u32, u32) = if i + 1 < self.bounds.len() {
                        (self.bounds[i], self.bounds[i + 1])
                    } else {
                        (0, self.crop_h)
                    };
                    InkSpan {
                        x_min: left,
                        x_max: right,
                        y_min: 0,
                        y_max: self.crop_h,
                        width: if right >= left {
                            right - left
                        } else {
                            0
                        },
                        height: self.crop_h,
                        right,
                    }
                },
            };
            r.push(span);
        }
        assert(r@ =~= Seq::new(self.cells@.len(), |i: int| span_of(*self, i)));
        r
    }
}

/// A character that is scored: which word, which place in it, which character, and how
/// many pixels its ink rectangle has.
#[derive(Clone, Copy, Debug, PartialEq, Eq, Structural)]
pub struct Candidate {
    pub seg: usize,
    pub pos: usize,
    pub ch: char,
    pub area: u32,
}

/// A character is scored if it is one that is told apart and its ink can be measured.
pub open spec fn is_scored(c: Cell) -> bool {
    supported().contains(c.ch) && c.crop is Some && c.featured
}

/// The scored characters among the first `n` of a word.
pub open spec fn word_candidates(cells: Seq<Cell>, seg: int, n: int) -> Seq<Candidate>
    decreases n,
{
    if n <= 0 {
        Seq::empty()
    } else {
        let before = word_candidates(cells, seg, n - 1);
        let c = cells[n - 1];
        if is_scored(c) {
            before.push(
                Candidate {
                    seg: seg as usize,
                    pos: (n - 1) as usize,
                    ch: c.ch,
                    area: c.crop->0.pixels() as u32,
                },
            )
        } else {
            before
        }
    }
}

/// The scored characters of the first `n` words.
pub open spec fn candidates(words: Seq<WordCells>, n: int) -> Seq<Candidate>
    decreases n,
{
    if n <= 0 {
        Seq::empty()
    } else {
        candidates(words, n - 1) + word_candidates(
            words[n - 1].cells@,
            n - 1,
            words[n - 1].cells@.len() as int,
        )
    }
}

/// The rectangles are such that their pixels can be counted.
pub open spec fn areas_fit(cells: Seq<Cell>) -> bool {
    forall|i: int|
        0 <= i < cells.len() && (#[trigger] cells[i]).crop is Some ==> cells[i].crop->0.wf()
            && cells[i].crop->0.pixels() <= u32::MAX
}

fn push_candidates(word: &WordCells, seg: usize, out: &mut Vec<Candidate>)
    requires
        areas_fit(word.cells@),
    ensures
        final(out)@ == old(out)@ + word_candidates(
            word.cells@,
            seg as int,
            word.cells@.len() as int,
        ),
{
    let ghost before = out@;
    let n: usize = word.cells.len();
    assert(before + word_candidates(word.cells@, seg as int, 0) =~= before);
    for i in 0..n
        invariant
            n == word.cells@.len(),
            areas_fit(word.cells@),
            out@ == before + word_candidates(word.cells@, seg as int, i as int),
    {
        let c: Cell = word.cells[i];
        match c.crop {
            Some(b) => {
                assert(word.cells@[i as int].crop is Some);
                if c.featured && is_supported(c.ch) {
                    let w: u64 = (b.x_max - b.x_min + 1) as u64;
                    let h: u64 = (b.y_max - b.y_min + 1) as u64;
                    assert(w * h == b.pixels());
                    assert(0 <= w * h <= 0xffff_ffff * 0xffff_ffff) by (nonlinear_arith)
                        requires
                            0 <= w <= 0xffff_ffff,
                            0 <= h <= 0xffff_ffff,
                    ;
                    out.push(Candidate { seg, pos: i, ch: c.ch, area: (w * h) as u32 });
                }
            },
            None => {},
        }
        assert(out@ =~= before + word_candidates(word.cells@, seg as int, i + 1));
    }
}

/// The characters that a font is scored on, in the order of the text.
pub fn scored_chars(words: &Vec<WordCells>) -> (r: Vec<Candidate>)
    requires
        forall|i: int| 0 <= i < words@.len() ==> areas_fit((#[trigger] words@[i]).cells@),
    ensures
        r@ == candidates(words@, words@.len() as int),
{
    let n: usize = words.len();
    let mut out: Vec<Candidate> = Vec::new();
    for i in 0..n
        invariant
            n == words@.len(),
            forall|i: int| 0 <= i < words@.len() ==> areas_fit((#[trigger] words@[i]).cells@),
            out@ == candidates(words@, i as int),
    {
        push_candidates(&words[i], i, &mut out);
    }
    out
}

/// The pixel counts of the candidates.
pub open spec fn areas(c: Seq<Candidate>) -> Seq<u32> {
    Seq::new(c.len(), |i: int| c[i].area)
}

/// `m` is what the pixel counts are compared with: their median, at least one.
pub open spec fn is_reference_area(c: Seq<Candidate>, m: u32) -> bool {
    if c.len() == 0 {
        m == 1
    } else {
        exists|k: u32| #[trigger]
            is_kth(areas(c), c.len() as int / 2, k as int) && m == (if k >= 1 {
                k
            } else {
                1
            })
    }
}

/// The median pixel count of the candidates. Characters count by how many pixels they have
/// in comparison, so that small punctuation marks count less.
pub fn median_area(c: &Vec<Candidate>) -> (m: u32)
    ensures
        is_reference_area(c@, m),
        m >= 1,
{
    let n: usize = c.len();
    if n == 0 {
        return 1;
    }
    let mut v: Vec<u32> = Vec::new();
    for i in 0..n
        invariant
            n == c@.len(),
            v@.len() == i,
            forall|k: int| 0 <= k < i ==> #[trigger] v@[k] == c@[k].area,
    {
        v.push(c[i].area);
    }
    assert(v@ =~= areas(c@));
    let k: u32 = kth_smallest(&v, n / 2);
    assert(is_kth(areas(c@), n as int / 2, k as int));
    if k >= 1 {
        k
    } else {
        1
    }
}

/// How many characters have to count: four tenths of them, at least three, but no more
/// than there are.
pub open spec fn coverage_needed(n: int) -> int {
    let share = (2 * n + 4) / 5;
    let floor = if share > 3 {
        share
    } else {
        3
    };
    let top = if n > 1 {
        n
    } else {
        1
    };
    if floor < top {
        floor
    } else {
        top
    }
}

/// `c` of `n` characters are enough.
pub open spec fn reaches_coverage(c: int, n: int) -> bool {
    c >= coverage_needed(n)
}

/// How many of `n` characters have to count.
pub fn min_coverage(n: usize) -> (r: usize)
    ensures
        r == coverage_needed(n as int),
{
    let share: usize = ((2 * (n as u128) + 4) / 5) as usize;
    let floor: usize = if share > 3 {
        share
    } else {
        3
    };
    let top: usize = if n > 1 {
        n
    } else {
        1
    };
    if floor < top {
        floor
    } else {
        top
    }
}

/// Every character has to count where there are no more than three of them. Of more, three
/// and four tenths are enough, and no fewer.
pub proof fn law_coverage_bounds(n: int)
    requires
        n >= 1,
    ensures
        1 <= coverage_needed(n) <= n,
        n <= 3 ==> coverage_needed(n) == n,
        4 <= n < 8 ==> coverage_needed(n) == 3,
        forall|c: int|
            0 <= c <= n ==> (#[trigger] reaches_coverage(c, n) <==> c == n || (c >= 3 && 5 * c >= 2
                * n)),
        n >= 8 ==> 5 * coverage_needed(n) >= 2 * n && 5 * coverage_needed(n) < 2 * n + 5,
{
}

// --- Geometry ---

/// How well the place of a character suits a font: log-likelihoods and errors, across and
/// down, and the sum of the two log-likelihoods.
#[derive(Clone, Copy, Debug, PartialEq, Eq, Structural)]
pub struct GeoEntry {
    pub seg: usize,
    pub pos: usize,
    pub h_ll: u32,
    pub v_ll: u32,
    pub h_err: u32,
    pub v_err: u32,
    pub ll: u32,
}

/// The places of characters that the geometry is known of.
pub struct GeoTable {
    pub entries: Vec<GeoEntry>,
    pub index: FxHashMap<(usize, usize), usize>,
}

/// The last of the first `n` entries for each place.
pub open spec fn geo_index(e: Seq<GeoEntry>, n: int) -> Map<(usize, usize), usize>
    decreases n,
{
    if n <= 0 {
        Map::empty()
    } else {
        geo_index(e, n - 1).insert((e[n - 1].seg, e[n - 1].pos), (n - 1) as usize)
    }
}

proof fn lemma_geo_index(e: Seq<GeoEntry>, n: int, key: (usize, usize))
    requires
        0 <= n <= e.len(),
        e.len() <= usize::MAX,
    ensures
        geo_index(e, n).dom().contains(key) ==> geo_index(e, n)[key] < n,
    decreases n,
{
    if n > 0 {
        lemma_geo_index(e, n - 1, key);
    }
}

impl GeoTable {
    pub open spec fn wf(&self) -> bool {
        &&& self.entries@.len() <= usize::MAX
        &&& places(self.index) == geo_index(self.entries@, self.entries@.len() as int)
    }

    /// A table of entries.
    pub fn new(entries: Vec<GeoEntry>) -> (t: GeoTable)
        ensures
            t.wf(),
            t.entries@ == entries@,
    {
        let n: usize = entries.len();
        let mut index: FxHashMap<(usize, usize), usize> = empty_map();
        for i in 0..n
            invariant
                n == entries@.len(),
                places(index) == geo_index(entries@, i as int),
        {
            map_insert(&mut index, (entries[i].seg, entries[i].pos), i);
        }
        GeoTable { entries, index }
    }

    /// The entry for a character: the last one of its place.
    pub fn lookup(&self, seg: usize, pos: usize) -> (r: Option<GeoEntry>)
        requires
            self.wf(),
        ensures
            ({
                let m = geo_index(self.entries@, self.entries@.len() as int);
                r == (if m.dom().contains((seg, pos)) {
                    Some(self.entries@[m[(seg, pos)] as int])
                } else {
                    None
                })
            }),
    {
        match map_get(&self.index, (seg, pos)) {
            None => None,
            Some(i) => {
                proof {
                    lemma_geo_index(self.entries@, self.entries@.len() as int, (seg, pos));
                }
                Some(self.entries[i])
            },
        }
    }
}

/// Some character is in a place that is too unlikely.
pub open spec fn has_unlikely(e: Seq<GeoEntry>, limit: u32) -> bool {
    exists|i: int| 0 <= i < e.len() && exceeds(limit, (#[trigger] e[i]).ll)
}

/// Whether a font is left out for its geometry: where nothing could be said of it, or a
/// character is in a place that is too unlikely. Fonts that are scored in any case are
/// not left out.
pub fn pruned_by_geometry(geo: Option<&Vec<GeoEntry>>, limit: u32, ensured: bool) -> (r: bool)
    ensures
        r == (!ensured && (geo is None || has_unlikely(geo->0@, limit))),
{
    if ensured {
        return false;
    }
    match geo {
        None => true,
        Some(v) => any_unlikely(v, limit),
    }
}

fn any_unlikely(v: &Vec<GeoEntry>, limit: u32) -> (r: bool)
    ensures
        r == has_unlikely(v@, limit),
{
    let n: usize = v.len();
    for i in 0..n
        invariant
            n == v@.len(),
            forall|k: int| 0 <= k < i ==> !exceeds(limit, (#[trigger] v@[k]).ll),
    {
        if is_larger(limit, v[i].ll) {
            assert(exceeds(limit, v@[i as int].ll));
            return true;
        }
    }
    false
}

// --- Which characters count ---

/// What the classifier says of a character: the score and the probability of the font's
/// glyph, where it has one, and the probability that it needs to count.
#[derive(Clone, Copy, Debug, PartialEq, Eq, Structural)]
pub struct Reading {
    pub logit: Option<u32>,
    pub prob: Option<u32>,
    pub gate: u32,
}

/// The font has no glyph for the character.
pub open spec fn unread(r: Reading) -> bool {
    r.logit is None || r.prob is None
}

/// The character counts: its probability is not less than it needs to be.
pub open spec fn counts(r: Reading) -> bool {
    !unread(r) && !exceeds(r.gate, r.prob->0)
}

/// Which of the first `n` characters count.
pub open spec fn counting(v: Seq<Reading>, n: int) -> Seq<usize>
    decreases n,
{
    if n <= 0 {
        Seq::empty()
    } else if counts(v[n - 1]) {
        counting(v, n - 1).push((n - 1) as usize)
    } else {
        counting(v, n - 1)
    }
}

/// A font is scored on these characters, unless it lacks a glyph or too few of them count.
/// A font that is scored in any case is scored on those that count, however few.
pub open spec fn selection(v: Seq<Reading>, ensured: bool) -> Option<Seq<usize>> {
    let all = counting(v, v.len() as int);
    if ensured {
        Some(all)
    } else if exists|i: int| 0 <= i < v.len() && unread(#[trigger] v[i]) {
        None
    } else if all.len() < coverage_needed(v.len() as int) {
        None
    } else {
        Some(all)
    }
}

/// The characters that a font is scored on.
pub fn select_readings(v: &Vec<Reading>, ensured: bool) -> (r: Option<Vec<usize>>)
    ensures
        match selection(v@, ensured) {
            Some(s) => r is Some && r->0@ == s,
            None => r is None,
        },
{
    let n: usize = v.len();
    let mut out: Vec<usize> = Vec::new();
    for i in 0..n
        invariant
            n == v@.len(),
            out@ == counting(v@, i as int),
            !ensured ==> forall|k: int| 0 <= k < i ==> !unread(#[trigger] v@[k]),
    {
        match (v[i].logit, v[i].prob) {
            (Some(_), Some(p)) => {
                if !is_larger(v[i].gate, p) {
                    out.push(i);
                }
            },
            _ => {
                assert(unread(v@[i as int]));
                if !ensured {
                    return None;
                }
            },
        }
    }
    if !ensured && out.len() < min_coverage(n) {
        return None;
    }
    Some(out)
}

/// The characters that a font is scored on. A font is left out where no word is left to
/// measure, where its geometry rules it out, or where its readings do. One that is scored in
/// any case is never left out.
pub open spec fn judgement(
    measured: bool,
    geo: Option<Seq<GeoEntry>>,
    limit: u32,
    v: Seq<Reading>,
    ensured: bool,
) -> Option<Seq<usize>> {
    if !ensured && (!measured || geo is None || has_unlikely(geo->0, limit)) {
        None
    } else {
        selection(v, ensured)
    }
}

/// Decides whether a font is scored, and on which characters.
pub fn judge_font(
    measured: bool,
    geo: Option<&Vec<GeoEntry>>,
    limit: u32,
    v: &Vec<Reading>,
    ensured: bool,
) -> (r: Option<Vec<usize>>)
    ensures
        match judgement(
            measured,
            match geo {
                Some(g) => Some(g@),
                None => None,
            },
            limit,
            v@,
            ensured,
        ) {
            Some(s) => r is Some && r->0@ == s,
            None => r is None,
        },
{
    if (!measured && !ensured) || pruned_by_geometry(geo, limit, ensured) {
        return None;
    }
    select_readings(v, ensured)
}

/// A font that is scored in any case is scored on the same characters whatever its geometry,
/// and any font is scored on characters that count, in their order.
pub proof fn law_judged_characters(
    measured: bool,
    geo: Option<Seq<GeoEntry>>,
    limit: u32,
    v: Seq<Reading>,
    ensured: bool,
)
    requires
        v.len() <= usize::MAX,
    ensures
        ensured ==> judgement(measured, geo, limit, v, ensured) == Some(
            counting(v, v.len() as int),
        ),
        judgement(measured, geo, limit, v, ensured) matches Some(s) ==> {
            &&& s == counting(v, v.len() as int)
            &&& forall|i: int| 0 <= i < s.len() ==> (#[trigger] s[i]) < v.len() && counts(
                v[s[i] as int],
            )
            &&& forall|i: int, j: int| 0 <= i < j < s.len() ==> s[i] < s[j]
            &&& !ensured ==> s.len() >= coverage_needed(v.len() as int)
        },
{
    lemma_counting(v, v.len() as int);
}

/// A font that is not scored in any case is left out as soon as one character has no score or
/// no probability: it lacks that glyph. The others do not make up for it.
pub proof fn law_missing_glyph(
    measured: bool,
    geo: Option<Seq<GeoEntry>>,
    limit: u32,
    v: Seq<Reading>,
    i: int,
)
    requires
        0 <= i < v.len(),
        v[i].logit is None || v[i].prob is None,
    ensures
        selection(v, false) is None,
        judgement(measured, geo, limit, v, false) is None,
{
    assert(unread(v[i]));
}

/// A font is scored on the characters of which it has a score and a probability, where that
/// probability is not below what the character needs. Where the font is not scored in any
/// case, something has to be measured, its geometry has to be known and nowhere below the
/// limit, every character has to be read, and those that count have to be all of them, or at
/// least three and at least four tenths.
pub proof fn law_judged_exactly(
    measured: bool,
    geo: Option<Seq<GeoEntry>>,
    limit: u32,
    v: Seq<Reading>,
    ensured: bool,
    s: Seq<usize>,
)
    requires
        v.len() <= usize::MAX,
        forall|i: int, j: int| 0 <= i < j < s.len() ==> s[i] < s[j],
        forall|i: usize| #[trigger]
            s.contains(i) <==> i < v.len() && v[i as int].logit is Some && v[i as int].prob is Some
                && !exceeds(v[i as int].gate, v[i as int].prob->0),
    ensures
        ensured ==> judgement(measured, geo, limit, v, ensured) == Some(s),
        !ensured ==> judgement(measured, geo, limit, v, ensured) == (if measured && geo is Some && (
        forall|i: int| 0 <= i < geo->0.len() ==> !exceeds(limit, (#[trigger] geo->0[i]).ll)) && (
        forall|i: int|
            0 <= i < v.len() ==> (#[trigger] v[i]).logit is Some && v[i].prob is Some)
            && s.len() >= 1 && (s.len() == v.len() || (s.len() >= 3 && 5 * s.len() >= 2 * v.len())) {
            Some(s)
        } else {
            None
        }),
{
    let n = v.len() as int;
    let all = counting(v, n);
    lemma_counting(v, n);
    lemma_ascending_indices(all, s);
    lemma_ascending_short(s, n);
    if v.len() > 0 {
        law_coverage_bounds(n);
        assert(reaches_coverage(all.len() as int, n) <==> all.len() == n || (all.len() >= 3 && 5
            * all.len() >= 2 * n));
    }
    if !ensured {
        if exists|i: int| 0 <= i < v.len() && unread(#[trigger] v[i]) {
            let i = choose|i: int| 0 <= i < v.len() && unread(#[trigger] v[i]);
            assert(v[i].logit is None || v[i].prob is None);
        } else {
            assert forall|i: int| 0 <= i < v.len() implies (#[trigger] v[i]).logit is Some
                && v[i].prob is Some by {
                assert(!unread(v[i]));
            }
        }
    }
}

proof fn lemma_ascending_short(s: Seq<usize>, n: int)
    requires
        forall|i: int, j: int| 0 <= i < j < s.len() ==> s[i] < s[j],
        forall|i: usize| #[trigger] s.contains(i) ==> i < n,
        0 <= n,
    ensures
        s.len() <= n,
    decreases s.len(),
{
    if s.len() > 0 {
        assert(s.contains(s.last()));
        let p = s.drop_last();
        assert forall|i: usize| #[trigger] p.contains(i) implies i < s.last() by {
            let k = choose|k: int| 0 <= k < p.len() && p[k] == i;
            assert(s[k] == i);
        }
        lemma_ascending_short(p, s.last() as int);
    }
}

proof fn lemma_counting(v: Seq<Reading>, n: int)
    requires
        0 <= n <= v.len(),
        v.len() <= usize::MAX,
    ensures
        forall|i: usize| #[trigger]
            counting(v, n).contains(i) <==> i < n && counts(v[i as int]),
        forall|i: int|
            0 <= i < counting(v, n).len() ==> (#[trigger] counting(v, n)[i]) < n && counts(
                v[counting(v, n)[i] as int],
            ),
        forall|i: int, j: int|
            0 <= i < j < counting(v, n).len() ==> counting(v, n)[i] < counting(v, n)[j],
    decreases n,
{
    if n > 0 {
        let before = counting(v, n - 1);
        lemma_counting(v, n - 1);
        let s = counting(v, n);
        assert forall|i: usize| #[trigger] s.contains(i) <==> i < n && counts(v[i as int]) by {
            if before.contains(i) {
                let k = choose|k: int| 0 <= k < before.len() && before[k] == i;
                assert(s[k] == i);
            }
            if i == n - 1 && s != before {
                assert(s[before.len() as int] == i);
            }
            if s.contains(i) && i != n - 1 {
                let k = choose|k: int| 0 <= k < s.len() && s[k] == i;
                assert(before[k] == i);
            }
        }
        assert forall|i: int| 0 <= i < counting(v, n).len() implies (#[trigger] counting(v, n)[i])
            < n && counts(v[counting(v, n)[i] as int]) by {
            if i < before.len() {
                assert(counting(v, n)[i] == before[i]);
            }
        }
        assert forall|i: int, j: int| 0 <= i < j < counting(v, n).len() implies counting(v, n)[i]
            < counting(v, n)[j] by {
            assert(counting(v, n)[i] == before[i]);
            if j < before.len() {
                assert(counting(v, n)[j] == before[j]);
            }
        }
    }
}

// --- The scores ---

/// The bit pattern of the least finite number, the score of fonts without any evidence.
pub const LEAST: u32 = 0xff7f_ffff;

/// The score of a font.
pub struct ScoredFont {
    pub key: String,
    pub score: u32,
}

/// Fonts and their scores so far, and whose observations are kept.
pub struct FontLedger {
    pub scored: Vec<ScoredFont>,
    /// The font with the highest score.
    pub best: Option<usize>,
    /// The font among those scored in any case whose observations are kept.
    pub truth: Option<usize>,
    /// Whether there are observations of that font.
    pub truth_seen: bool,
    pub best_score: u32,
    pub truth_score: u32,
}

/// The keys and scores of fonts.
pub open spec fn score_list(v: Seq<ScoredFont>) -> Seq<(Seq<char>, u32)> {
    Seq::new(v.len(), |i: int| (v[i].key@, v[i].score))
}

/// `a` is higher than `b`.
pub open spec fn higher(a: u32, b: u32) -> bool {
    float_key(a) > float_key(b)
}

/// The first of the fonts that has the highest score, if any exceeds the least one.
pub open spec fn is_best(s: Seq<(Seq<char>, u32)>, best: Option<usize>, score: u32) -> bool {
    match best {
        None => score == LEAST && forall|i: int|
            0 <= i < s.len() ==> !higher((#[trigger] s[i]).1, LEAST),
        Some(b) => {
            &&& b < s.len()
            &&& s[b as int].1 == score
            &&& higher(score, LEAST)
            &&& forall|i: int| 0 <= i < s.len() ==> !higher((#[trigger] s[i]).1, score)
            &&& forall|i: int| 0 <= i < b ==> higher(score, (#[trigger] s[i]).1)
        },
    }
}

impl FontLedger {
    pub open spec fn scores(&self) -> Seq<(Seq<char>, u32)> {
        score_list(self.scored@)
    }

    pub open spec fn wf(&self) -> bool {
        &&& is_best(self.scores(), self.best, self.best_score)
        &&& self.truth is Some ==> self.truth->0 < self.scored@.len()
        &&& self.truth is None ==> !self.truth_seen && self.truth_score == LEAST
    }

    pub fn new() -> (l: FontLedger)
        ensures
            l.wf(),
            l.scores().len() == 0,
            l.best is None,
            l.truth is None,
    {
        FontLedger {
            scored: Vec::new(),
            best: None,
            truth: None,
            truth_seen: false,
            best_score: LEAST,
            truth_score: LEAST,
        }
    }

    /// Enters the score of a font. It becomes the best one if its score is higher than all
    /// before. Of the fonts that are scored in any case the one with the highest score is
    /// kept, or else the first one with observations.
    pub fn record(&mut self, key: String, score: u32, observed: bool, ensured: bool)
        requires
            old(self).wf(),
            !is_nan(score),
        ensures
            final(self).wf(),
            final(self).scores() == old(self).scores().push((key@, score)),
            final(self).truth == (if ensured && (higher(score, old(self).truth_score) || (!old(self).truth_seen && observed)) {
                Some(old(self).scores().len() as usize)
            } else {
                old(self).truth
            }),
            final(self).truth_score == (if ensured && higher(score, old(self).truth_score) {
                score
            } else {
                old(self).truth_score
            }),
            final(self).truth_seen == (if ensured && higher(score, old(self).truth_score) {
                observed
            } else {
                old(self).truth_seen || (ensured && observed)
            }),
    {
        let ghost before = self.scores();
        let ghost name = key@;
        let n: usize = self.scored.len();
        self.scored.push(ScoredFont { key, score });
        assert(self.scores() =~= before.push((name, score)));
        if key_of(score) > key_of(self.best_score) {
            self.best = Some(n);
            self.best_score = score;
        }
        if ensured {
            if key_of(score) > key_of(self.truth_score) {
                self.truth_score = score;
                self.truth = Some(n);
                self.truth_seen = observed;
            } else if !self.truth_seen && observed {
                self.truth = Some(n);
                self.truth_seen = true;
            }
        }
        proof {
            let s = self.scores();
            assert forall|i: int| 0 <= i < s.len() implies !higher(
                (#[trigger] s[i]).1,
                self.best_score,
            ) by {
                if i < n {
                    assert(s[i] == before[i]);
                }
            }
            assert(is_best(s, self.best, self.best_score)) by {
                assert forall|i: int| 0 <= i < before.len() implies s[i] == before[i] by {}
            }
        }
    }
}

// --- The result ---

/// The fonts by score, and whose observations belong to the result.
pub struct FontIdResult {
    pub scores: Vec<ScoredFont>,
    /// Which recorded font is the best one.
    pub best: Option<usize>,
    /// Which recorded font the observations for comparison are of.
    pub truth: Option<usize>,
    pub path_score: u32,
}

/// The fonts that have a score.
pub open spec fn scored_keys(s: Seq<(Seq<char>, u32)>) -> Set<Seq<char>> {
    Set::new(|k: Seq<char>| exists|i: int| 0 <= i < s.len() && (#[trigger] s[i]).0 == k)
}

/// The scores with the least score for each of the first `n` keys that has none. A key
/// that is not registered gets it as often as it is listed.
pub open spec fn with_ensured(
    s: Seq<(Seq<char>, u32)>,
    keys: Seq<Seq<char>>,
    registered: Seq<bool>,
    n: int,
) -> (Seq<(Seq<char>, u32)>, Set<Seq<char>>)
    decreases n,
{
    if n <= 0 {
        (s, scored_keys(s))
    } else {
        let (list, present) = with_ensured(s, keys, registered, n - 1);
        let k = keys[n - 1];
        if present.contains(k) {
            (list, present)
        } else {
            (
                list.push((k, LEAST)),
                if registered[n - 1] {
                    present.insert(k)
                } else {
                    present
                },
            )
        }
    }
}

/// What a font is ranked by: first the higher score, then its key.
pub open spec fn font_rank(p: (Seq<char>, u32)) -> Seq<i64> {
    seq![-float_key(p.1) as i64] + codes(p.0)
}

pub open spec fn font_ranks(s: Seq<(Seq<char>, u32)>) -> Seq<Seq<i64>> {
    Seq::new(s.len(), |i: int| font_rank(s[i]))
}

/// The scores in the order `order`.
pub open spec fn reordered(s: Seq<(Seq<char>, u32)>, order: Seq<usize>) -> Seq<(Seq<char>, u32)> {
    Seq::new(s.len(), |i: int| s[order[i] as int])
}

fn rank_row(f: &ScoredFont) -> (key: Vec<i64>)
    ensures
        key@ == font_rank((f.key@, f.score)),
{
    let mut key: Vec<i64> = Vec::new();
    key.push(0 - key_of(f.score));
    let cs: Vec<i64> = codes_of(&chars_of(f.key.as_str()));
    let n: usize = cs.len();
    assert(key@ + cs@.take(0) =~= key@);
    let ghost head = key@;
    for i in 0..n
        invariant
            n == cs@.len(),
            key@ == head + cs@.take(i as int),
    {
        key.push(cs[i]);
        assert(key@ =~= head + cs@.take(i + 1));
    }
    assert(cs@.take(n as int) =~= cs@);
    assert(key@ =~= font_rank((f.key@, f.score)));
    key
}

fn sort_fonts(v: &Vec<ScoredFont>) -> (r: Vec<ScoredFont>)
    ensures
        exists|order: Seq<usize>| #[trigger]
            is_stable_order(font_ranks(score_list(v@)), order) && score_list(r@) == reordered(
                score_list(v@),
                order,
            ),
{
    let n: usize = v.len();
    let mut keys: Vec<Vec<i64>> = Vec::new();
    for i in 0..n
        invariant
            n == v@.len(),
            keys@.len() == i,
            forall|k: int|
                0 <= k < i ==> (#[trigger] keys@[k])@ == font_rank((v@[k].key@, v@[k].score)),
    {
        keys.push(rank_row(&v[i]));
    }
    assert(key_views(keys@) =~= font_ranks(score_list(v@)));
    let order: Vec<usize> = stable_order(&keys);
    let mut out: Vec<ScoredFont> = Vec::new();
    for i in 0..n
        invariant
            n == v@.len(),
            order@.len() == n,
            forall|a: int| 0 <= a < n ==> #[trigger] order@[a] < n,
            out@.len() == i,
            forall|k: int|
                0 <= k < i ==> ((#[trigger] out@[k]).key@, out@[k].score) == score_list(
                    v@,
                )[order@[k] as int],
    {
        let f = &v[order[i]];
        out.push(ScoredFont { key: copy_of(f.key.as_str()), score: f.score });
    }
    assert(score_list(out@) =~= reordered(score_list(v@), order@));
    out
}

/// The result for a ledger: all scores from high to low, equal ones by their keys. Fonts that
/// are scored in any case and have no score yet have the least one.
pub open spec fn is_outcome(
    l: FontLedger,
    ensured: Seq<Seq<char>>,
    registered: Seq<bool>,
    r: FontIdResult,
) -> bool {
    let list = with_ensured(l.scores(), ensured, registered, ensured.len() as int).0;
    &&& exists|order: Seq<usize>| #[trigger]
        is_stable_order(font_ranks(list), order) && score_list(r.scores@) == reordered(list, order)
    &&& r.best == l.best
    &&& r.truth == l.truth
    &&& r.path_score == l.best_score
}

/// The result where there is nothing to match: no font at all, and the least score.
pub open spec fn is_nothing(r: FontIdResult) -> bool {
    r.scores@.len() == 0 && r.best is None && r.truth is None && r.path_score == LEAST
}

/// The result of matching words with fonts.
pub open spec fn is_identified(
    words: usize,
    l: FontLedger,
    ensured: Seq<Seq<char>>,
    registered: Seq<bool>,
    r: FontIdResult,
) -> bool {
    if words == 0 {
        is_nothing(r)
    } else {
        is_outcome(l, ensured, registered, r)
    }
}

/// The result of matching `words` words with the fonts, of which the ledger tells the scores.
/// Without words no font is listed, not even one that is scored in any case.
pub fn identified(
    words: usize,
    ledger: FontLedger,
    ensured: &Vec<String>,
    registered: &Vec<bool>,
) -> (r: FontIdResult)
    requires
        ledger.wf(),
        registered@.len() == ensured@.len(),
    ensures
        is_identified(words, ledger, crate::text::texts(ensured@), registered@, r),
{
    if words == 0 {
        FontIdResult { scores: Vec::new(), best: None, truth: None, path_score: LEAST }
    } else {
        ledger.finish(ensured, registered)
    }
}

impl FontLedger {
    fn finish(self, ensured: &Vec<String>, registered: &Vec<bool>) -> (r: FontIdResult)
        requires
            self.wf(),
            registered@.len() == ensured@.len(),
        ensures
            is_outcome(self, crate::text::texts(ensured@), registered@, r),
    {
        let ghost start = self.scores();
        let ghost keys = crate::text::texts(ensured@);
        let best: Option<usize> = self.best;
        let truth: Option<usize> = self.truth;
        let path_score: u32 = self.best_score;
        let mut list: Vec<ScoredFont> = self.scored;
        let mut present: FxHashSet<String> = empty_set();
        let m: usize = list.len();
        for i in 0..m
            invariant
                m == list@.len(),
                score_list(list@) == start,
                forall|k: Seq<char>| #[trigger]
                    members(present).contains(k) <==> exists|j: int|
                        0 <= j < i && (#[trigger] start[j]).0 == k,
        {
            let ghost before = members(present);
            set_insert(&mut present, copy_of(list[i].key.as_str()));
            proof {
                assert(start[i as int].0 == list@[i as int].key@);
                assert forall|k: Seq<char>| #[trigger]
                    members(present).contains(k) <==> exists|j: int|
                        0 <= j < i + 1 && (#[trigger] start[j]).0 == k by {
                    if before.contains(k) {
                        let j = choose|j: int| 0 <= j < i && (#[trigger] start[j]).0 == k;
                        assert(0 <= j < i + 1);
                    }
                    if k == start[i as int].0 {
                        assert(0 <= i < i + 1);
                    }
                }
            }
        }
        assert(start.len() == m);
        assert(members(present) =~= scored_keys(start));
        let n: usize = ensured.len();
        for i in 0..n
            invariant
                n == ensured@.len(),
                n == registered@.len(),
                keys == crate::text::texts(ensured@),
                (score_list(list@), members(present)) == with_ensured(
                    start,
                    keys,
                    registered@,
                    i as int,
                ),
        {
            let k: &String = &ensured[i];
            assert(keys[i as int] == k@);
            if !set_contains(&present, k.as_str()) {
                let ghost before = score_list(list@);
                list.push(ScoredFont { key: copy_of(k.as_str()), score: LEAST });
                assert(score_list(list@) =~= before.push((k@, LEAST)));
                if registered[i] {
                    set_insert(&mut present, copy_of(k.as_str()));
                }
            }
        }
        let scores: Vec<ScoredFont> = sort_fonts(&list);
        proof {
            let all = with_ensured(start, keys, registered@, n as int).0;
            assert(score_list(list@) == all);
            let order = choose|order: Seq<usize>| #[trigger]
                is_stable_order(font_ranks(score_list(list@)), order) && score_list(scores@)
                    == reordered(score_list(list@), order);
            assert(is_stable_order(font_ranks(all), order));
            assert(score_list(scores@) == reordered(all, order));
            assert(keys.len() == n);
        }
        FontIdResult { scores, best, truth, path_score }
    }
}

proof fn lemma_ensured_kept(
    s: Seq<(Seq<char>, u32)>,
    keys: Seq<Seq<char>>,
    registered: Seq<bool>,
    n: int,
)
    requires
        0 <= n <= keys.len(),
    ensures
        ({
            let (list, present) = with_ensured(s, keys, registered, n);
            &&& list.len() >= s.len()
            &&& forall|i: int| 0 <= i < s.len() ==> list[i] == s[i]
            &&& forall|i: int| s.len() <= i < list.len() ==> (#[trigger] list[i]).1 == LEAST
            &&& forall|k: Seq<char>| #[trigger]
                present.contains(k) ==> scored_keys(list).contains(k)
            &&& forall|j: int| 0 <= j < n ==> scored_keys(list).contains(#[trigger] keys[j])
        }),
    decreases n,
{
    if n > 0 {
        lemma_ensured_kept(s, keys, registered, n - 1);
        let (list, present) = with_ensured(s, keys, registered, n - 1);
        let (after, seen) = with_ensured(s, keys, registered, n);
        assert forall|k: Seq<char>| scored_keys(list).contains(k) implies #[trigger] scored_keys(
            after,
        ).contains(k) by {
            let i = choose|i: int| 0 <= i < list.len() && (#[trigger] list[i]).0 == k;
            assert(after[i].0 == k);
        }
        if !present.contains(keys[n - 1]) {
            assert(after[list.len() as int].0 == keys[n - 1]);
        }
        assert(scored_keys(after).contains(keys[n - 1]));
        assert forall|j: int| 0 <= j < n implies scored_keys(after).contains(
            #[trigger] keys[j],
        ) by {
            if j < n - 1 {
                assert(scored_keys(list).contains(keys[j]));
            }
        }
    }
}

/// Every font that is scored in any case is in the result, the scores that were recorded
/// stay, and what is added has the least score.
pub proof fn law_ensured_present(
    s: Seq<(Seq<char>, u32)>,
    keys: Seq<Seq<char>>,
    registered: Seq<bool>,
)
    ensures
        ({
            let list = with_ensured(s, keys, registered, keys.len() as int).0;
            &&& forall|j: int| 0 <= j < keys.len() ==> scored_keys(list).contains(#[trigger] keys[j])
            &&& list.len() >= s.len()
            &&& forall|i: int| 0 <= i < s.len() ==> list[i] == s[i]
            &&& forall|i: int| s.len() <= i < list.len() ==> (#[trigger] list[i]).1 == LEAST
        }),
{
    lemma_ensured_kept(s, keys, registered, keys.len() as int);
}

/// In the result a font never comes after one with a lower score, and of fonts with the
/// same score the one with the smaller key comes first.
pub proof fn law_result_order(s: Seq<(Seq<char>, u32)>, order: Seq<usize>, a: int, b: int)
    requires
        is_stable_order(font_ranks(s), order),
        0 <= a < b < s.len(),
    ensures
        !higher(reordered(s, order)[b].1, reordered(s, order)[a].1),
        float_key(reordered(s, order)[a].1) == float_key(reordered(s, order)[b].1)
            ==> crate::sorting::lex_le(
            codes(reordered(s, order)[a].0),
            codes(reordered(s, order)[b].0),
        ),
{
    let p = s[order[a] as int];
    let q = s[order[b] as int];
    let ranks = font_ranks(s);
    assert(crate::sorting::goes_before(ranks, order[a] as int, order[b] as int));
    assert(ranks[order[a] as int] == font_rank(p));
    assert(ranks[order[b] as int] == font_rank(q));
    let x = font_rank(p);
    let y = font_rank(q);
    assert(x[0] == -float_key(p.1) && y[0] == -float_key(q.1));
    assert(x.drop_first() =~= codes(p.0));
    assert(y.drop_first() =~= codes(q.0));
}

/// Without words there are no scores and the path score is the least one, whatever fonts are
/// asked for. With words, scores descend, equal ones go by the keys of their fonts, and every
/// font that is asked for occurs.
pub proof fn law_identified(
    words: usize,
    l: FontLedger,
    ensured: Seq<Seq<char>>,
    registered: Seq<bool>,
    r: FontIdResult,
)
    requires
        is_identified(words, l, ensured, registered, r),
    ensures
        words == 0 ==> r.scores@.len() == 0 && r.best is None && r.truth is None && r.path_score
            == LEAST,
        words > 0 ==> forall|k: int|
            0 <= k < ensured.len() ==> scored_keys(score_list(r.scores@)).contains(
                #[trigger] ensured[k],
            ),
        words > 0 ==> forall|a: int, b: int|
            0 <= a < b < r.scores@.len() ==> !higher(
                (#[trigger] r.scores@[b]).score,
                (#[trigger] r.scores@[a]).score,
            ) && (float_key(r.scores@[a].score) == float_key(r.scores@[b].score)
                ==> crate::sorting::lex_le(codes(r.scores@[a].key@), codes(r.scores@[b].key@))),
{
    if words > 0 {
        let list = with_ensured(l.scores(), ensured, registered, ensured.len() as int).0;
        let order = choose|order: Seq<usize>| #[trigger]
            is_stable_order(font_ranks(list), order) && score_list(r.scores@) == reordered(
                list,
                order,
            );
        law_ensured_present(l.scores(), ensured, registered);
        let out = score_list(r.scores@);
        assert forall|k: int| 0 <= k < ensured.len() implies scored_keys(out).contains(
            #[trigger] ensured[k],
        ) by {
            assert(scored_keys(list).contains(ensured[k]));
            let i = choose|i: int| 0 <= i < list.len() && (#[trigger] list[i]).0 == ensured[k];
            assert(out.len() == list.len() && out.len() == r.scores@.len());
            assert(r.scores.len() == r.scores@.len());
            assert(order.contains(i as usize));
            let j = choose|j: int| 0 <= j < order.len() && order[j] == i as usize;
            assert(out[j] == list[i]);
        }
        assert forall|a: int, b: int| 0 <= a < b < r.scores@.len() implies !higher(
            (#[trigger] r.scores@[b]).score,
            (#[trigger] r.scores@[a]).score,
        ) && (float_key(r.scores@[a].score) == float_key(r.scores@[b].score)
            ==> crate::sorting::lex_le(codes(r.scores@[a].key@), codes(r.scores@[b].key@))) by {
            law_result_order(list, order, a, b);
            assert(out[a] == (r.scores@[a].key@, r.scores@[a].score));
            assert(out[b] == (r.scores@[b].key@, r.scores@[b].score));
        }
    }
}

// --- What is scored ---

/// The extent of a character with ink is that of its ink, both borders included. Without ink
/// it goes from one cut to the next, over the whole height; where a cut is missing, it is as
/// wide as high.
pub proof fn law_character_extent(word: WordCells, pos: int)
    requires
        0 <= pos < word.cells@.len(),
        word.wf(),
    ensures
        ({
            let s = span_of(word, pos);
            &&& word.cells@[pos].crop matches Some(b) ==> {
                &&& s.x_min == b.x_min && s.x_max == b.x_max && s.y_min == b.y_min && s.y_max
                    == b.y_max
                &&& s.x_min + s.width == s.x_max + 1 && s.right == s.x_max + 1
                &&& s.y_min + s.height == s.y_max + 1
            }
            &&& word.cells@[pos].crop is None ==> s.y_min == 0 && s.y_max == word.crop_h && s.height
                == word.crop_h && s.right == s.x_max
            &&& word.cells@[pos].crop is None && pos + 1 < word.bounds@.len() ==> s.x_min
                == word.bounds@[pos] && s.right == word.bounds@[pos + 1]
            &&& word.cells@[pos].crop is None && pos + 1 >= word.bounds@.len() ==> s.x_min == 0
                && s.right == word.crop_h
            &&& word.cells@[pos].crop is None && s.x_min <= s.right ==> s.x_min + s.width == s.right
            &&& word.cells@[pos].crop is None && s.x_min > s.right ==> s.width == 0
        }),
{
    if word.cells@[pos].crop is Some {
        assert(word.cells@[pos].crop->0.wf());
    }
}

/// Scored are the characters that are told apart, have ink, and can be measured, and no others:
/// each once, in the order of the text, with as many pixels as its ink rectangle has columns
/// times rows.
pub proof fn law_scored_chars(words: Seq<WordCells>, seg: int, pos: int)
    requires
        words.len() <= usize::MAX,
        0 <= seg < words.len(),
        0 <= pos < words[seg].cells@.len() <= usize::MAX,
        forall|i: int| 0 <= i < words.len() ==> areas_fit((#[trigger] words[i]).cells@),
    ensures
        ({
            let all = candidates(words, words.len() as int);
            let c = words[seg].cells@[pos];
            &&& (exists|k: int|
                0 <= k < all.len() && (#[trigger] all[k]).seg == seg && all[k].pos == pos) <==> (
            supported().contains(c.ch) && c.crop is Some && c.featured)
            &&& forall|k: int|
                0 <= k < all.len() && (#[trigger] all[k]).seg == seg && all[k].pos == pos ==> {
                    &&& all[k].ch == c.ch
                    &&& all[k].area == (c.crop->0.x_max - c.crop->0.x_min + 1) * (c.crop->0.y_max
                        - c.crop->0.y_min + 1)
                }
            &&& forall|j: int, k: int|
                0 <= j < k < all.len() ==> (#[trigger] all[j]).seg < (#[trigger] all[k]).seg || (
                all[j].seg == all[k].seg && all[j].pos < all[k].pos)
        }),
{
    let n = words.len() as int;
    assert forall|i: int| 0 <= i < n implies (#[trigger] words[i]).cells@.len() <= usize::MAX by {
        assert(words[i].cells.len() == words[i].cells@.len());
    }
    lemma_candidates(words, n);
    let all = candidates(words, n);
    let c = words[seg].cells@[pos];
    assert(areas_fit(words[seg].cells@));
    if is_scored(c) {
        assert(listed(all, seg, pos));
    }
    if exists|k: int| 0 <= k < all.len() && (#[trigger] all[k]).seg == seg && all[k].pos == pos {
        let k = choose|k: int|
            0 <= k < all.len() && (#[trigger] all[k]).seg == seg && all[k].pos == pos;
        assert(stands_for(words, all[k]));
    }
    assert forall|k: int|
        0 <= k < all.len() && (#[trigger] all[k]).seg == seg && all[k].pos == pos implies all[k].ch
        == c.ch && all[k].area == (c.crop->0.x_max - c.crop->0.x_min + 1) * (c.crop->0.y_max
        - c.crop->0.y_min + 1) by {
        assert(stands_for(words, all[k]));
        assert(0 <= c.crop->0.pixels()) by (nonlinear_arith)
            requires
                c.crop->0.pixels() == (c.crop->0.x_max - c.crop->0.x_min + 1) * (c.crop->0.y_max
                    - c.crop->0.y_min + 1),
                c.crop->0.x_min <= c.crop->0.x_max,
                c.crop->0.y_min <= c.crop->0.y_max,
        ;
    }
}

/// Some candidate stands for the character `pos` of word `seg`.
spec fn listed(all: Seq<Candidate>, seg: int, pos: int) -> bool {
    exists|k: int| 0 <= k < all.len() && (#[trigger] all[k]).seg == seg && all[k].pos == pos
}

/// A candidate stands for a scored character.
spec fn stands_for(words: Seq<WordCells>, c: Candidate) -> bool {
    &&& c.seg < words.len()
    &&& c.pos < words[c.seg as int].cells@.len()
    &&& ({
        let cell = words[c.seg as int].cells@[c.pos as int];
        &&& is_scored(cell)
        &&& c.ch == cell.ch
        &&& c.area == cell.crop->0.pixels() as u32
    })
}

/// One candidate stands before another in the text.
spec fn stands_before(a: Candidate, b: Candidate) -> bool {
    a.seg < b.seg || (a.seg == b.seg && a.pos < b.pos)
}

proof fn lemma_word_candidates(words: Seq<WordCells>, seg: int, n: int)
    requires
        words.len() <= usize::MAX,
        0 <= seg < words.len(),
        0 <= n <= words[seg].cells@.len() <= usize::MAX,
    ensures
        ({
            let r = word_candidates(words[seg].cells@, seg, n);
            &&& forall|k: int|
                0 <= k < r.len() ==> (#[trigger] r[k]).seg == seg && r[k].pos < n && stands_for(
                    words,
                    r[k],
                )
            &&& forall|j: int, k: int|
                0 <= j < k < r.len() ==> (#[trigger] r[j]).pos < (#[trigger] r[k]).pos
            &&& forall|p: int|
                0 <= p < n && is_scored(#[trigger] words[seg].cells@[p]) ==> listed(r, seg, p)
        }),
    decreases n,
{
    if n > 0 {
        lemma_word_candidates(words, seg, n - 1);
        let before = word_candidates(words[seg].cells@, seg, n - 1);
        let r = word_candidates(words[seg].cells@, seg, n);
        assert forall|k: int| 0 <= k < r.len() implies (#[trigger] r[k]).seg == seg && r[k].pos < n
            && stands_for(words, r[k]) by {
            if k < before.len() {
                assert(r[k] == before[k]);
            }
        }
        assert forall|j: int, k: int| 0 <= j < k < r.len() implies (#[trigger] r[j]).pos < (
        #[trigger] r[k]).pos by {
            assert(r[j] == before[j]);
            if k < before.len() {
                assert(r[k] == before[k]);
            }
        }
        assert forall|p: int| 0 <= p < n && is_scored(#[trigger] words[seg].cells@[p]) implies listed(
            r,
            seg,
            p,
        ) by {
            if p < n - 1 {
                assert(listed(before, seg, p));
                let k = choose|k: int|
                    0 <= k < before.len() && (#[trigger] before[k]).seg == seg && before[k].pos == p;
                assert(r[k] == before[k]);
            } else {
                assert(r[before.len() as int].pos == p);
            }
        }
    }
}

proof fn lemma_candidates(words: Seq<WordCells>, n: int)
    requires
        0 <= n <= words.len() <= usize::MAX,
        forall|i: int| 0 <= i < words.len() ==> (#[trigger] words[i]).cells@.len() <= usize::MAX,
    ensures
        ({
            let all = candidates(words, n);
            &&& forall|k: int|
                0 <= k < all.len() ==> (#[trigger] all[k]).seg < n && stands_for(words, all[k])
            &&& forall|j: int, k: int|
                0 <= j < k < all.len() ==> stands_before(#[trigger] all[j], #[trigger] all[k])
            &&& forall|s: int, p: int|
                0 <= s < n && 0 <= p < words[s].cells@.len() && is_scored(
                    #[trigger] words[s].cells@[p],
                ) ==> listed(all, s, p)
        }),
    decreases n,
{
    if n > 0 {
        lemma_candidates(words, n - 1);
        let before = candidates(words, n - 1);
        let cells = words[n - 1].cells@;
        lemma_word_candidates(words, n - 1, cells.len() as int);
        let r = word_candidates(cells, n - 1, cells.len() as int);
        let all = candidates(words, n);
        assert forall|k: int| 0 <= k < all.len() implies (#[trigger] all[k]).seg < n && stands_for(
            words,
            all[k],
        ) by {
            if k < before.len() {
                assert(all[k] == before[k]);
            } else {
                assert(all[k] == r[k - before.len()]);
            }
        }
        assert forall|j: int, k: int| 0 <= j < k < all.len() implies stands_before(
            #[trigger] all[j],
            #[trigger] all[k],
        ) by {
            if k < before.len() {
                assert(all[k] == before[k] && all[j] == before[j]);
            } else {
                assert(all[k] == r[k - before.len()]);
                if j < before.len() {
                    assert(all[j] == before[j]);
                } else {
                    assert(all[j] == r[j - before.len()]);
                }
            }
        }
        assert forall|s: int, p: int|
            0 <= s < n && 0 <= p < words[s].cells@.len() && is_scored(
                #[trigger] words[s].cells@[p],
            ) implies listed(all, s, p) by {
            if s < n - 1 {
                assert(listed(before, s, p));
                let k = choose|k: int|
                    0 <= k < before.len() && (#[trigger] before[k]).seg == s && before[k].pos == p;
                assert(all[k] == before[k]);
            } else {
                assert(listed(r, s, p));
                let k = choose|k: int|
                    0 <= k < r.len() && (#[trigger] r[k]).seg == s && r[k].pos == p;
                assert(all[before.len() + k] == r[k]);
            }
        }
    }
}

/// The area that others are compared with is the median, and at least one: more than half of
/// the characters are not larger, and where it is above one, no more than half are smaller.
pub proof fn law_reference_area(c: Seq<Candidate>, m: u32)
    requires
        is_reference_area(c, m),
    ensures
        m >= 1,
        c.len() == 0 ==> m == 1,
        c.len() > 0 ==> 2 * tally(|i: int| c[i].area <= m, c.len() as int) > c.len(),
        m > 1 ==> 2 * tally(|i: int| c[i].area < m, c.len() as int) <= c.len(),
        m > 1 ==> exists|i: int| 0 <= i < c.len() && (#[trigger] c[i]).area == m,
{
    let n = c.len() as int;
    if n > 0 {
        let a = areas(c);
        let k = choose|k: u32| #[trigger]
            is_kth(a, c.len() as int / 2, k as int) && m == (if k >= 1 {
                k
            } else {
                1
            });
        lemma_tally_implies(up_to(a, k as int), |i: int| c[i].area <= m, n);
        if k >= 1 {
            lemma_tally_implies(|i: int| c[i].area < m, below(a, k as int), n);
        }
        if m > 1 {
            let i = choose|i: int| 0 <= i < a.len() && #[trigger] a[i] == k;
            assert(c[i].area == m);
        }
    }
}

/// Where several entries are for one place, the last one counts; where none is, none.
pub proof fn law_geo_lookup(e: Seq<GeoEntry>, n: int, seg: usize, pos: usize)
    requires
        0 <= n <= e.len() <= usize::MAX,
    ensures
        ({
            let m = geo_index(e, n);
            &&& m.dom().contains((seg, pos)) <==> exists|i: int|
                0 <= i < n && (#[trigger] e[i]).seg == seg && e[i].pos == pos
            &&& m.dom().contains((seg, pos)) ==> {
                let k = m[(seg, pos)] as int;
                &&& 0 <= k < n && e[k].seg == seg && e[k].pos == pos
                &&& forall|i: int|
                    k < i < n ==> !((#[trigger] e[i]).seg == seg && e[i].pos == pos)
            }
        }),
    decreases n,
{
    if n > 0 {
        law_geo_lookup(e, n - 1, seg, pos);
        if e[n - 1].seg == seg && e[n - 1].pos == pos {
        } else if exists|i: int| 0 <= i < n && (#[trigger] e[i]).seg == seg && e[i].pos == pos {
            let i = choose|i: int| 0 <= i < n && (#[trigger] e[i]).seg == seg && e[i].pos == pos;
            assert(i < n - 1);
            assert(geo_index(e, n - 1).dom().contains((seg, pos)));
        } else if geo_index(e, n).dom().contains((seg, pos)) {
            assert(geo_index(e, n - 1).dom().contains((seg, pos)));
            let i = choose|i: int| 0 <= i < n - 1 && (#[trigger] e[i]).seg == seg && e[i].pos == pos;
            assert(e[i].seg == seg);
        }
    }
}

/// The best font has the highest score, and is the first that has it. There is none exactly if
/// no score exceeds the least finite number.
pub proof fn law_best_font(l: FontLedger, i: int)
    requires
        l.wf(),
        0 <= i < l.scored@.len(),
    ensures
        l.best matches Some(b) ==> {
            &&& b < l.scored@.len()
            &&& l.best_score == l.scored@[b as int].score
            &&& float_key(l.scored@[i].score) <= float_key(l.best_score)
            &&& i < b ==> float_key(l.scored@[i].score) < float_key(l.best_score)
        },
        l.best is None ==> l.best_score == 0xff7f_ffff && float_key(l.scored@[i].score) <= float_key(
            0xff7f_ffff,
        ),
        l.best is Some ==> float_key(l.best_score) > float_key(0xff7f_ffff),
{
    let s = l.scores();
    assert(s[i].1 == l.scored@[i].score);
    if l.best is Some {
        assert(s[l.best->0 as int].1 == l.scored@[l.best->0 as int].score);
    }
}

/// A font that is scored in any case is added, with the least finite number for a score, unless
/// it has a score already or was listed before as a registered one. Nothing else is added.
pub proof fn law_ensured_added(
    s: Seq<(Seq<char>, u32)>,
    keys: Seq<Seq<char>>,
    registered: Seq<bool>,
    n: int,
)
    requires
        0 <= n < keys.len(),
    ensures
        with_ensured(s, keys, registered, 0).0 == s,
        with_ensured(s, keys, registered, n + 1).0 == (if (exists|i: int|
            0 <= i < s.len() && (#[trigger] s[i]).0 == keys[n]) || (exists|j: int|
            0 <= j < n && #[trigger] keys[j] == keys[n] && registered[j]) {
            with_ensured(s, keys, registered, n).0
        } else {
            with_ensured(s, keys, registered, n).0.push((keys[n], 0xff7f_ffffu32))
        }),
{
    lemma_present(s, keys, registered, n, keys[n]);
}

proof fn lemma_present(
    s: Seq<(Seq<char>, u32)>,
    keys: Seq<Seq<char>>,
    registered: Seq<bool>,
    n: int,
    k: Seq<char>,
)
    requires
        0 <= n <= keys.len(),
    ensures
        with_ensured(s, keys, registered, n).1.contains(k) <==> (exists|i: int|
            0 <= i < s.len() && (#[trigger] s[i]).0 == k) || (exists|j: int|
            0 <= j < n && #[trigger] keys[j] == k && registered[j]),
    decreases n,
{
    if n > 0 {
        lemma_present(s, keys, registered, n - 1, k);
        if keys[n - 1] == k && registered[n - 1] {
            assert(with_ensured(s, keys, registered, n).1.contains(k));
        }
        if exists|j: int| 0 <= j < n && #[trigger] keys[j] == k && registered[j] {
            let j = choose|j: int| 0 <= j < n && #[trigger] keys[j] == k && registered[j];
            if j < n - 1 {
                assert(keys[j] == k);
            }
        }
    }
}

/// The result lists what was recorded and what was added, each as often, and names the best
/// font and the one for comparison as they were recorded.
pub proof fn law_outcome_fonts(
    l: FontLedger,
    ensured: Seq<Seq<char>>,
    registered: Seq<bool>,
    r: FontIdResult,
)
    requires
        is_outcome(l, ensured, registered, r),
    ensures
        score_list(r.scores@).to_multiset() == with_ensured(
            l.scores(),
            ensured,
            registered,
            ensured.len() as int,
        ).0.to_multiset(),
        r.best == l.best,
        r.truth == l.truth,
        r.path_score == l.best_score,
{
    let list = with_ensured(l.scores(), ensured, registered, ensured.len() as int).0;
    let order = choose|order: Seq<usize>| #[trigger]
        is_stable_order(font_ranks(list), order) && score_list(r.scores@) == reordered(list, order);
    assert(score_list(r.scores@).len() == list.len());
    assert(r.scores.len() == r.scores@.len());
    crate::sorting::lemma_reordered_multiset(list, order);
    assert(reordered(list, order) =~= Seq::new(list.len(), |i: int| list[order[i] as int]));
}

} // verus!
