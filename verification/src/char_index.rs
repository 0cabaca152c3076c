//! The character index: for each indexed character, the features of every font that has it.
//! Building, merging and pruning of the index, and its binary file format.

use vstd::prelude::*;
use vstd::string::*;
use crate::cache::NameSet;
use crate::sorting::{sorted_unique, strictly_ascending};
use crate::text::{char_at, chars_of, copy_of, same_text, text_of, texts, views};

pub use crate::features::{indexed_chars, is_indexed};

verus! {

/// Height in pixels to which indexed characters are normalised.
pub const NORM_H: u32 = 48;

/// Bins of the column ink profile.
pub const PROFILE_BINS: usize = 32;

/// Scan lines along which crossings are counted.
pub const CROSSING_BINS: usize = 8;

/// Directions that stroke ends are sorted by.
pub const TERMINAL_ANGLE_BINS: usize = 4;

/// Scalars of the first group.
pub const SCALAR_V1: usize = 7;

/// Scalars of the second group.
pub const SCALAR_V2: usize = 4 + TERMINAL_ANGLE_BINS + 2 + CROSSING_BINS;

/// Length of a feature vector.
pub const FEAT_LEN: usize = PROFILE_BINS + SCALAR_V1 + SCALAR_V2;

/// Version of the file format.
pub const INDEX_VERSION: u32 = 6;

// --- Feature vectors ---

/// The features of one character in one font, each number by the bits of its
/// single-precision value.
pub struct CharFeatures {
    pub profile: Vec<u32>,
    pub aspect: u32,
    pub ink_density: u32,
    pub v_center: u32,
    pub h_balance: u32,
    pub serif_score: u32,
    pub stroke_contrast: u32,
    pub xh_cap_ratio: u32,
    pub counter_area_ratio: u32,
    pub counter_centroid_x: u32,
    pub counter_centroid_y: u32,
    pub counter_aspect: u32,
    pub terminal_angles: Vec<u32>,
    pub ink_perimeter: u32,
    pub compactness: u32,
    pub h_crossings: Vec<u32>,
}

fn copy_range(v: &Vec<u32>, from: usize, to: usize) -> (r: Vec<u32>)
    requires
        from <= to <= v@.len(),
    ensures
        r@ == v@.subrange(from as int, to as int),
{
    let mut out: Vec<u32> = Vec::new();
    let mut i: usize = from;
    while i < to
        invariant
            from <= i <= to <= v@.len(),
            out@ == v@.subrange(from as int, i as int),
        decreases to - i,
    {
        out.push(v[i]);
        assert(out@ =~= v@.subrange(from as int, i + 1));
        i = i + 1;
    }
    out
}

fn push_all(out: &mut Vec<u32>, v: &Vec<u32>)
    ensures
        final(out)@ == old(out)@ + v@,
{
    let ghost before = out@;
    let n: usize = v.len();
    assert(before + v@.take(0) =~= before);
    for i in 0..n
        invariant
            n == v@.len(),
            out@ == before + v@.take(i as int),
    {
        out.push(v[i]);
        assert(out@ =~= before + v@.take(i + 1));
    }
    assert(v@.take(n as int) =~= v@);
}

impl CharFeatures {
    /// The parts have their fixed lengths.
    pub open spec fn wf(&self) -> bool {
        &&& self.profile@.len() == PROFILE_BINS
        &&& self.terminal_angles@.len() == TERMINAL_ANGLE_BINS
        &&& self.h_crossings@.len() == CROSSING_BINS
    }

    /// The parts in the order of the feature vector.
    pub open spec fn flat(&self) -> Seq<u32> {
        self.profile@ + seq![
            self.aspect,
            self.ink_density,
            self.v_center,
            self.h_balance,
            self.serif_score,
            self.stroke_contrast,
            self.xh_cap_ratio,
            self.counter_area_ratio,
            self.counter_centroid_x,
            self.counter_centroid_y,
            self.counter_aspect,
        ] + self.terminal_angles@ + seq![self.ink_perimeter, self.compactness] + self.h_crossings@
    }

    /// The feature vector.
    pub fn as_slice(&self) -> (v: Vec<u32>)
        requires
            self.wf(),
        ensures
            v@ == self.flat(),
            v@.len() == FEAT_LEN,
    {
        let mut v: Vec<u32> = Vec::new();
        push_all(&mut v, &self.profile);
        v.push(self.aspect);
        v.push(self.ink_density);
        v.push(self.v_center);
        v.push(self.h_balance);
        v.push(self.serif_score);
        v.push(self.stroke_contrast);
        v.push(self.xh_cap_ratio);
        v.push(self.counter_area_ratio);
        v.push(self.counter_centroid_x);
        v.push(self.counter_centroid_y);
        v.push(self.counter_aspect);
        push_all(&mut v, &self.terminal_angles);
        v.push(self.ink_perimeter);
        v.push(self.compactness);
        push_all(&mut v, &self.h_crossings);
        assert(v@ =~= self.flat());
        v
    }

    /// The features that a feature vector holds.
    pub fn from_slice(v: &Vec<u32>) -> (f: CharFeatures)
        requires
            v@.len() == FEAT_LEN,
        ensures
            f.wf(),
            f.flat() == v@,
    {
        let f = CharFeatures {
            profile: copy_range(v, 0, 32),
            aspect: v[32],
            ink_density: v[33],
            v_center: v[34],
            h_balance: v[35],
            serif_score: v[36],
            stroke_contrast: v[37],
            xh_cap_ratio: v[38],
            counter_area_ratio: v[39],
            counter_centroid_x: v[40],
            counter_centroid_y: v[41],
            counter_aspect: v[42],
            terminal_angles: copy_range(v, 43, 47),
            ink_perimeter: v[47],
            compactness: v[48],
            h_crossings: copy_range(v, 49, 57),
        };
        assert(f.flat() =~= v@);
        f
    }
}

/// The features of one font.
pub struct FontCharEntry {
    pub font_name: String,
    pub features: CharFeatures,
}

/// The fonts that have one character.
pub struct CharFonts {
    pub ch: char,
    pub fonts: Vec<FontCharEntry>,
}

/// A font by its name and its feature vector.
pub type FontRow = (Seq<char>, Seq<u32>);

/// A character and its fonts.
pub type CharRow = (char, Seq<FontRow>);

pub open spec fn font_row(e: FontCharEntry) -> FontRow {
    (e.font_name@, e.features.flat())
}

pub open spec fn font_rows(v: Seq<FontCharEntry>) -> Seq<FontRow> {
    Seq::new(v.len(), |i: int| font_row(v[i]))
}

pub open spec fn char_row(e: CharFonts) -> CharRow {
    (e.ch, font_rows(e.fonts@))
}

pub open spec fn char_rows(v: Seq<CharFonts>) -> Seq<CharRow> {
    Seq::new(v.len(), |i: int| char_row(v[i]))
}

/// All feature vectors have their fixed shape.
pub open spec fn rows_wf(v: Seq<FontCharEntry>) -> bool {
    forall|i: int| 0 <= i < v.len() ==> (#[trigger] v[i]).features.wf()
}

// --- Tables keyed by character ---

/// The position of a character in a table.
pub open spec fn slot(t: Seq<CharRow>, c: char) -> Option<int>
    decreases t.len(),
{
    if t.len() == 0 {
        None
    } else if t.last().0 == c {
        Some(t.len() - 1)
    } else {
        slot(t.drop_last(), c)
    }
}

/// The table with the fonts of one character set.
pub open spec fn put(t: Seq<CharRow>, c: char, fonts: Seq<FontRow>) -> Seq<CharRow> {
    match slot(t, c) {
        Some(k) => t.update(k, (c, fonts)),
        None => t.push((c, fonts)),
    }
}

/// The fonts of one character; none if the table lacks it.
pub open spec fn fonts_of(t: Seq<CharRow>, c: char) -> Seq<FontRow> {
    match slot(t, c) {
        Some(k) => t[k].1,
        None => Seq::empty(),
    }
}

/// No character has two rows.
pub open spec fn distinct_chars(t: Seq<CharRow>) -> bool {
    forall|i: int, j: int| 0 <= i < j < t.len() ==> (#[trigger] t[i]).0 != (#[trigger] t[j]).0
}

pub proof fn lemma_slot(t: Seq<CharRow>, c: char)
    ensures
        slot(t, c) matches Some(k) ==> 0 <= k < t.len() && t[k].0 == c,
        slot(t, c) is None ==> forall|i: int| 0 <= i < t.len() ==> (#[trigger] t[i]).0 != c,
    decreases t.len(),
{
    if t.len() > 0 && t.last().0 != c {
        lemma_slot(t.drop_last(), c);
        assert forall|i: int| 0 <= i < t.len() && slot(t, c) is None implies (#[trigger] t[i]).0
            != c by {
            if i < t.len() - 1 {
                assert(t.drop_last()[i] == t[i]);
            }
        }
    }
}

/// In a table without repeated characters the slot is where the character stands.
pub proof fn lemma_slot_at(t: Seq<CharRow>, c: char, k: int)
    requires
        distinct_chars(t),
        0 <= k < t.len(),
        t[k].0 == c,
    ensures
        slot(t, c) == Some(k),
{
    lemma_slot(t, c);
    if slot(t, c) is Some {
        let j = slot(t, c)->0;
        if j < k {
            assert(t[j].0 != t[k].0);
        } else if k < j {
            assert(t[k].0 != t[j].0);
        }
    }
}

pub proof fn lemma_put_distinct(t: Seq<CharRow>, c: char, fonts: Seq<FontRow>)
    requires
        distinct_chars(t),
    ensures
        distinct_chars(put(t, c, fonts)),
        fonts_of(put(t, c, fonts), c) == fonts,
        forall|d: char| d != c ==> #[trigger] fonts_of(put(t, c, fonts), d) == fonts_of(t, d),
{
    lemma_slot(t, c);
    let u = put(t, c, fonts);
    assert(distinct_chars(u)) by {
        assert forall|i: int, j: int| 0 <= i < j < u.len() implies (#[trigger] u[i]).0 != (
        #[trigger] u[j]).0 by {
            if j < t.len() {
                assert(t[i].0 != t[j].0);
            }
        }
    }
    let k = match slot(t, c) {
        Some(k) => k,
        None => t.len() as int,
    };
    lemma_slot_at(u, c, k);
    assert forall|d: char| d != c implies #[trigger] fonts_of(u, d) == fonts_of(t, d) by {
        lemma_slot(t, d);
        lemma_slot(u, d);
        match slot(t, d) {
            Some(m) => {
                assert(u[m].0 == d);
                lemma_slot_at(u, d, m);
            },
            None => {
                if slot(u, d) is Some {
                    let m = slot(u, d)->0;
                    if m < t.len() {
                        assert(t[m].0 == d);
                    }
                }
            },
        }
    }
}

fn find_char(v: &Vec<CharFonts>, c: char) -> (r: Option<usize>)
    ensures
        match slot(char_rows(v@), c) {
            Some(k) => r is Some && r->0 == k && k < v@.len(),
            None => r is None,
        },
{
    let n: usize = v.len();
    let ghost t = char_rows(v@);
    let mut i: usize = n;
    assert(t.take(n as int) =~= t);
    while i > 0
        invariant
            i <= n,
            n == v@.len(),
            t == char_rows(v@),
            slot(t, c) == slot(t.take(i as int), c),
        decreases i,
    {
        assert(t.take(i as int).last() == t[i - 1]);
        if v[i - 1].ch == c {
            return Some(i - 1);
        }
        assert(t.take(i as int).drop_last() =~= t.take(i - 1));
        i = i - 1;
    }
    None
}

/// Sets the fonts of one character.
pub fn put_fonts(v: &mut Vec<CharFonts>, c: char, fonts: Vec<FontCharEntry>)
    requires
        distinct_chars(char_rows(old(v)@)),
        forall|i: int| 0 <= i < old(v)@.len() ==> rows_wf((#[trigger] old(v)@[i]).fonts@),
        rows_wf(fonts@),
    ensures
        char_rows(final(v)@) == put(char_rows(old(v)@), c, font_rows(fonts@)),
        distinct_chars(char_rows(final(v)@)),
        forall|i: int| 0 <= i < final(v)@.len() ==> rows_wf((#[trigger] final(v)@[i]).fonts@),
{
    let ghost t = char_rows(v@);
    let ghost rows = font_rows(fonts@);
    proof {
        lemma_put_distinct(t, c, rows);
    }
    match find_char(v, c) {
        Some(k) => {
            v.set(k, CharFonts { ch: c, fonts });
            assert(char_rows(v@) =~= t.update(k as int, (c, rows)));
        },
        None => {
            v.push(CharFonts { ch: c, fonts });
            assert(char_rows(v@) =~= t.push((c, rows)));
        },
    }
}

// --- The index ---

/// The character index.
pub struct CharIndex {
    /// For each character, its fonts.
    pub entries: Vec<CharFonts>,
    /// Fonts that were looked at but have none of the characters.
    pub skipped_fonts: NameSet,
    /// All font names of the entries in ascending order; a font's number is its position.
    pub font_names_table: Vec<String>,
    /// For each character that has fonts, their numbers.
    pub flat_ids: Vec<(char, Vec<usize>)>,
    /// For each character, the spread of each dimension.
    pub dim_sigmas: Vec<(char, Vec<u32>)>,
}

/// The name of some font of some character is `name`.
pub open spec fn has_font(t: Seq<CharRow>, name: Seq<char>) -> bool {
    exists|i: int, k: int|
        #![trigger t[i].1[k]]
        0 <= i < t.len() && 0 <= k < t[i].1.len() && t[i].1[k].0 == name
}

/// `ids` numbers the fonts of a row by their position in the table of names.
pub open spec fn are_ids(row: Seq<FontRow>, names: Seq<Seq<char>>, ids: Seq<usize>) -> bool {
    ids.len() == row.len() && forall|k: int|
        0 <= k < ids.len() ==> (#[trigger] ids[k]) < names.len() && names[ids[k] as int] == row[k].0
}

/// The characters of a table that have fonts, in order.
pub open spec fn with_fonts(t: Seq<CharRow>) -> Seq<CharRow>
    decreases t.len(),
{
    if t.len() == 0 {
        Seq::empty()
    } else if t.last().1.len() > 0 {
        with_fonts(t.drop_last()).push(t.last())
    } else {
        with_fonts(t.drop_last())
    }
}

impl CharIndex {
    /// The entries as a table.
    pub open spec fn table(&self) -> Seq<CharRow> {
        char_rows(self.entries@)
    }

    /// Entries and skipped fonts have their proper shape.
    pub open spec fn wf(&self) -> bool {
        &&& distinct_chars(self.table())
        &&& forall|i: int| 0 <= i < self.entries@.len() ==> rows_wf(
            (#[trigger] self.entries@[i]).fonts@,
        )
        &&& self.skipped_fonts.wf()
        &&& forall|i: int|
            0 <= i < self.dim_sigmas@.len() ==> (#[trigger] self.dim_sigmas@[i]).1@.len()
                == FEAT_LEN
    }

    /// The derived tables fit the entries: the names in ascending order, and the numbers of
    /// the fonts of each character that has any.
    pub open spec fn rebuilt(&self) -> bool {
        let names = texts(self.font_names_table@);
        let rows = with_fonts(self.table());
        &&& strictly_ascending(names)
        &&& forall|name: Seq<char>| #[trigger] names.contains(name) <==> has_font(
            self.table(),
            name,
        )
        &&& self.flat_ids@.len() == rows.len()
        &&& forall|i: int|
            0 <= i < rows.len() ==> (#[trigger] self.flat_ids@[i]).0 == rows[i].0 && are_ids(
                rows[i].1,
                names,
                self.flat_ids@[i].1@,
            )
    }
}

/// The names of all fonts of a table, in order of appearance.
fn all_names(entries: &Vec<CharFonts>) -> (r: Vec<Vec<char>>)
    ensures
        forall|name: Seq<char>| #[trigger]
            views(r@).contains(name) <==> has_font(char_rows(entries@), name),
{
    let ghost t = char_rows(entries@);
    let mut out: Vec<Vec<char>> = Vec::new();
    let n: usize = entries.len();
    for i in 0..n
        invariant
            n == entries@.len(),
            t == char_rows(entries@),
            forall|name: Seq<char>| #[trigger]
                views(out@).contains(name) <==> has_font(t.take(i as int), name),
    {
        let m: usize = entries[i].fonts.len();
        let ghost start = views(out@);
        for k in 0..m
            invariant
                i < n,
                n == entries@.len(),
                t == char_rows(entries@),
                m == entries@[i as int].fonts@.len(),
                forall|name: Seq<char>| #[trigger]
                    views(out@).contains(name) <==> start.contains(name) || exists|j: int|
                        0 <= j < k && (#[trigger] t[i as int].1[j]).0 == name,
        {
            let name: Vec<char> = chars_of(entries[i].fonts[k].font_name.as_str());
            let ghost before = views(out@);
            let ghost text = name@;
            assert(t[i as int].1[k as int].0 == text);
            out.push(name);
            proof {
                assert(views(out@) =~= before.push(text));
                assert forall|s: Seq<char>| #[trigger]
                    views(out@).contains(s) <==> start.contains(s) || exists|j: int|
                        0 <= j < k + 1 && (#[trigger] t[i as int].1[j]).0 == s by {
                    lemma_push_has(before, text, s);
                    if exists|j: int| 0 <= j < k + 1 && (#[trigger] t[i as int].1[j]).0 == s {
                        let j = choose|j: int|
                            0 <= j < k + 1 && (#[trigger] t[i as int].1[j]).0 == s;
                        if j < k {
                            assert(before.contains(s));
                        }
                    }
                    if before.contains(s) && !start.contains(s) {
                        let j = choose|j: int| 0 <= j < k && (#[trigger] t[i as int].1[j]).0 == s;
                        assert(t[i as int].1[j].0 == s);
                    }
                }
            }
        }
        proof {
            let u = t.take(i + 1);
            let u0 = t.take(i as int);
            assert forall|s: Seq<char>| #[trigger] views(out@).contains(s) <==> has_font(u, s) by {
                if has_font(u, s) {
                    let (a, k) = choose|a: int, k: int|
                        #![trigger u[a].1[k]]
                        0 <= a < u.len() && 0 <= k < u[a].1.len() && u[a].1[k].0 == s;
                    if a < i {
                        assert(u0[a].1[k].0 == s);
                        assert(has_font(u0, s));
                        assert(start.contains(s));
                    } else {
                        assert(t[i as int].1[k].0 == s);
                    }
                }
                if start.contains(s) {
                    assert(has_font(u0, s));
                    let (a, k) = choose|a: int, k: int|
                        #![trigger u0[a].1[k]]
                        0 <= a < u0.len() && 0 <= k < u0[a].1.len() && u0[a].1[k].0 == s;
                    assert(u[a].1[k].0 == s);
                }
                if exists|j: int| 0 <= j < m && (#[trigger] t[i as int].1[j]).0 == s {
                    let j = choose|j: int| 0 <= j < m && (#[trigger] t[i as int].1[j]).0 == s;
                    assert(u[i as int].1[j].0 == s);
                }
            }
        }
    }
    assert(t.take(n as int) =~= t);
    out
}

proof fn lemma_push_has<T>(s: Seq<T>, x: T, y: T)
    ensures
        s.push(x).contains(y) <==> s.contains(y) || x == y,
{
    if s.contains(y) {
        let i = choose|i: int| 0 <= i < s.len() && s[i] == y;
        assert(s.push(x)[i] == y);
    }
    if x == y {
        assert(s.push(x)[s.len() as int] == y);
    }
    if s.push(x).contains(y) {
        let i = choose|i: int| 0 <= i < s.push(x).len() && s.push(x)[i] == y;
        if i < s.len() {
            assert(s[i] == y);
        }
    }
}

/// The number of a font name.
fn name_id(names: &Vec<String>, name: &str) -> (id: usize)
    requires
        texts(names@).contains(name@),
    ensures
        id < names@.len(),
        names@[id as int]@ == name@,
{
    let n: usize = names.len();
    let mut i: usize = 0;
    while i < n
        invariant
            n == names@.len(),
            i <= n,
            forall|k: int| 0 <= k < i ==> (#[trigger] names@[k])@ != name@,
        decreases n - i,
    {
        if same_text(names[i].as_str(), name) {
            return i;
        }
        i = i + 1;
    }
    proof {
        let k = choose|k: int| 0 <= k < n && texts(names@)[k] == name@;
        assert(names@[k]@ == name@);
        assert(false);
    }
    0
}

impl CharIndex {
    /// Rebuilds the table of names and the numbers of the fonts from the entries. The
    /// spreads are dropped, to be computed anew.
    pub fn rebuild_vecs(&mut self)
        requires
            old(self).wf(),
        ensures
            final(self).wf(),
            final(self).entries@ == old(self).entries@,
            final(self).skipped_fonts == old(self).skipped_fonts,
            final(self).dim_sigmas@.len() == 0,
            final(self).rebuilt(),
    {
        let sorted: Vec<Vec<char>> = sorted_unique(&all_names(&self.entries));
        let mut names: Vec<String> = Vec::new();
        let m: usize = sorted.len();
        for i in 0..m
            invariant
                m == sorted@.len(),
                names@.len() == i,
                forall|k: int| 0 <= k < i ==> (#[trigger] names@[k])@ == sorted@[k]@,
        {
            names.push(text_of(&sorted[i]));
        }
        assert(texts(names@) =~= views(sorted@));
        let ghost t = self.table();
        let ghost nv = texts(names@);
        let mut flat: Vec<(char, Vec<usize>)> = Vec::new();
        let n: usize = self.entries.len();
        for i in 0..n
            invariant
                n == self.entries@.len(),
                self.wf(),
                self.entries@ == old(self).entries@,
                self.skipped_fonts == old(self).skipped_fonts,
                t == self.table(),
                nv == texts(names@),
                forall|name: Seq<char>| #[trigger] nv.contains(name) <==> has_font(t, name),
                flat@.len() == with_fonts(t.take(i as int)).len(),
                forall|k: int|
                    0 <= k < flat@.len() ==> (#[trigger] flat@[k]).0 == with_fonts(
                        t.take(i as int),
                    )[k].0 && are_ids(with_fonts(t.take(i as int))[k].1, nv, flat@[k].1@),
        {
            let count: usize = self.entries[i].fonts.len();
            assert(t.take(i + 1).drop_last() =~= t.take(i as int));
            assert(t.take(i + 1).last() == t[i as int]);
            let ghost row = t[i as int].1;
            if count > 0 {
                let mut ids: Vec<usize> = Vec::new();
                for k in 0..count
                    invariant
                        i < n,
                        n == self.entries@.len(),
                        count == self.entries@[i as int].fonts@.len(),
                        t == self.table(),
                        row == t[i as int].1,
                        nv == texts(names@),
                        forall|name: Seq<char>| #[trigger]
                            nv.contains(name) <==> has_font(t, name),
                        ids@.len() == k,
                        forall|j: int|
                            0 <= j < k ==> (#[trigger] ids@[j]) < nv.len() && nv[ids@[j] as int]
                                == row[j].0,
                {
                    let ghost name = row[k as int].0;
                    assert(t[i as int].1[k as int].0 == name);
                    assert(has_font(t, name));
                    let id: usize = name_id(
                        &names,
                        self.entries[i].fonts[k].font_name.as_str(),
                    );
                    ids.push(id);
                }
                flat.push((self.entries[i].ch, ids));
            }
        }
        assert(t.take(n as int) =~= t);
        self.font_names_table = names;
        self.flat_ids = flat;
        self.dim_sigmas = Vec::new();
    }

    /// Whether and where the font names of the entries are: the set of them.
    pub fn indexed_font_names(&self) -> (r: NameSet)
        requires
            self.wf(),
        ensures
            r.wf(),
            forall|name: Seq<char>| #[trigger]
                r@.contains(name) <==> has_font(self.table(), name),
    {
        let mut set: NameSet = NameSet::new();
        add_names(&all_names(&self.entries), &mut set);
        set
    }

    /// The names of all fonts that the index knows, with and without entries.
    pub fn font_names(&self) -> (r: NameSet)
        requires
            self.wf(),
        ensures
            r.wf(),
            forall|name: Seq<char>| #[trigger]
                r@.contains(name) <==> self.skipped_fonts@.contains(name) || has_font(
                    self.table(),
                    name,
                ),
    {
        let mut set: NameSet = NameSet::new();
        let n: usize = self.skipped_fonts.names.len();
        let mut skipped: Vec<Vec<char>> = Vec::new();
        for i in 0..n
            invariant
                n == self.skipped_fonts.names@.len(),
                skipped@.len() == i,
                forall|k: int|
                    0 <= k < i ==> (#[trigger] skipped@[k])@ == self.skipped_fonts.names@[k]@,
        {
            skipped.push(chars_of(self.skipped_fonts.names[i].as_str()));
        }
        assert(views(skipped@) =~= texts(self.skipped_fonts.names@));
        add_names(&skipped, &mut set);
        add_names(&all_names(&self.entries), &mut set);
        set
    }

    /// Every character with fonts has its spreads, in the order of the derived tables.
    pub open spec fn has_spreads(&self, spreads: Seq<Seq<u32>>) -> bool {
        &&& self.dim_sigmas@.len() == self.flat_ids@.len()
        &&& spreads.len() == self.flat_ids@.len()
        &&& forall|k: int|
            0 <= k < self.dim_sigmas@.len() ==> (#[trigger] self.dim_sigmas@[k]).0
                == self.flat_ids@[k].0 && self.dim_sigmas@[k].1@ == spreads[k]
    }

    /// Sets the spread of each dimension for the characters that have fonts, in the order of the
    /// derived tables.
    pub fn fill_dim_sigmas(&mut self, spreads: &Vec<Vec<u32>>)
        requires
            old(self).wf(),
            spreads@.len() == old(self).flat_ids@.len(),
            forall|k: int| 0 <= k < spreads@.len() ==> (#[trigger] spreads@[k])@.len() == FEAT_LEN,
        ensures
            final(self).wf(),
            final(self).entries == old(self).entries,
            final(self).skipped_fonts == old(self).skipped_fonts,
            final(self).font_names_table == old(self).font_names_table,
            final(self).flat_ids == old(self).flat_ids,
            final(self).has_spreads(number_lists(spreads@)),
    {
        let n: usize = self.flat_ids.len();
        let mut all: Vec<(char, Vec<u32>)> = Vec::new();
        for k in 0..n
            invariant
                n == self.flat_ids@.len(),
                n == spreads@.len(),
                all@.len() == k,
                forall|i: int|
                    0 <= i < k ==> (#[trigger] all@[i]).0 == self.flat_ids@[i].0 && all@[i].1@
                        == spreads@[i]@,
        {
            all.push((self.flat_ids[k].0, copy_range(&spreads[k], 0, spreads[k].len())));
            assert(all@[k as int].1@ =~= spreads@[k as int]@);
        }
        self.dim_sigmas = all;
    }

    /// The spread of each dimension for a character.
    pub fn get_dim_sigmas(&self, c: char) -> (r: Option<&Vec<u32>>)
        ensures
            match sigma_slot(self.dim_sigmas@, c) {
                Some(k) => r is Some && *(r->0) == self.dim_sigmas@[k].1,
                None => r is None,
            },
    {
        let n: usize = self.dim_sigmas.len();
        let ghost s = self.dim_sigmas@;
        let mut i: usize = n;
        assert(s.take(n as int) =~= s);
        while i > 0
            invariant
                i <= n,
                n == self.dim_sigmas@.len(),
                s == self.dim_sigmas@,
                sigma_slot(s, c) == sigma_slot(s.take(i as int), c),
            decreases i,
        {
            assert(s.take(i as int).last() == s[i - 1]);
            if self.dim_sigmas[i - 1].0 == c {
                return Some(&self.dim_sigmas[i - 1].1);
            }
            assert(s.take(i as int).drop_last() =~= s.take(i - 1));
            i = i - 1;
        }
        None
    }

    /// The name of the font with a number.
    pub fn font_name_by_id(&self, id: usize) -> (r: Option<&str>)
        ensures
            r is Some <==> id < self.font_names_table@.len(),
            r is Some ==> r->0@ == self.font_names_table@[id as int]@,
    {
        if id < self.font_names_table.len() {
            Some(self.font_names_table[id].as_str())
        } else {
            None
        }
    }

    /// How many fonts have a character.
    pub fn tree_size(&self, c: char) -> (n: usize)
        requires
            self.wf(),
            self.rebuilt(),
        ensures
            n == fonts_of(self.table(), c).len(),
    {
        let n: usize = self.flat_ids.len();
        let ghost rows = with_fonts(self.table());
        proof {
            lemma_with_fonts(self.table(), c);
        }
        for i in 0..n
            invariant
                n == self.flat_ids@.len(),
                self.rebuilt(),
                rows == with_fonts(self.table()),
                forall|k: int|
                    0 <= k < rows.len() && (#[trigger] rows[k]).0 == c ==> rows[k].1 == fonts_of(
                        self.table(),
                        c,
                    ),
                (exists|k: int| 0 <= k < rows.len() && (#[trigger] rows[k]).0 == c) || fonts_of(
                    self.table(),
                    c,
                ).len() == 0,
                self.wf(),
                forall|k: int| 0 <= k < i ==> (#[trigger] self.flat_ids@[k]).0 != c,
        {
            assert(self.flat_ids@[i as int].0 == rows[i as int].0);
            assert(are_ids(rows[i as int].1, texts(self.font_names_table@), self.flat_ids@[i as int].1@));
            if self.flat_ids[i].0 == c {
                return self.flat_ids[i].1.len();
            }
        }
        proof {
            if fonts_of(self.table(), c).len() > 0 {
                let k = choose|k: int| 0 <= k < rows.len() && (#[trigger] rows[k]).0 == c;
                assert(self.flat_ids@[k].0 == rows[k].0);
            }
        }
        0
    }
}

/// In a table without repeated characters, the rows with fonts are those of the characters
/// that have fonts.
proof fn lemma_with_fonts(t: Seq<CharRow>, c: char)
    requires
        distinct_chars(t),
    ensures
        forall|k: int|
            0 <= k < with_fonts(t).len() && (#[trigger] with_fonts(t)[k]).0 == c ==> with_fonts(
                t,
            )[k].1 == fonts_of(t, c),
        (exists|k: int| 0 <= k < with_fonts(t).len() && (#[trigger] with_fonts(t)[k]).0 == c)
            || fonts_of(t, c).len() == 0,
    decreases t.len(),
{
    if t.len() > 0 {
        let u = t.drop_last();
        assert(distinct_chars(u)) by {
            assert forall|i: int, j: int| 0 <= i < j < u.len() implies (#[trigger] u[i]).0 != (
            #[trigger] u[j]).0 by {
                assert(t[i].0 != t[j].0);
            }
        }
        lemma_with_fonts(u, c);
        let rows = with_fonts(t);
        let before = with_fonts(u);
        if t.last().0 == c {
            lemma_slot(u, c);
            assert forall|i: int| 0 <= i < u.len() implies (#[trigger] u[i]).0 != c by {
                assert(t[i].0 != t[t.len() - 1].0);
            }
            assert(slot(u, c) is None);
            lemma_with_fonts_chars(u, c);
            if t.last().1.len() > 0 {
                assert(rows[before.len() as int].0 == c);
            }
        } else {
            lemma_slot(u, c);
            assert(fonts_of(t, c) == fonts_of(u, c));
            assert forall|k: int| 0 <= k < rows.len() && (#[trigger] rows[k]).0 == c implies rows[k].1
                == fonts_of(t, c) by {
                if k < before.len() {
                    assert(rows[k] == before[k]);
                } else {
                    assert(rows[k] == t.last());
                }
            }
            if exists|k: int| 0 <= k < before.len() && (#[trigger] before[k]).0 == c {
                let k = choose|k: int| 0 <= k < before.len() && (#[trigger] before[k]).0 == c;
                assert(rows[k].0 == c);
            }
        }
    }
}

proof fn lemma_with_fonts_chars(t: Seq<CharRow>, c: char)
    requires
        forall|i: int| 0 <= i < t.len() ==> (#[trigger] t[i]).0 != c,
    ensures
        forall|k: int| 0 <= k < with_fonts(t).len() ==> (#[trigger] with_fonts(t)[k]).0 != c,
    decreases t.len(),
{
    if t.len() > 0 {
        let u = t.drop_last();
        assert forall|i: int| 0 <= i < u.len() implies (#[trigger] u[i]).0 != c by {
            assert(t[i].0 != c);
        }
        lemma_with_fonts_chars(u, c);
        assert(t[t.len() - 1].0 != c);
        assert forall|k: int| 0 <= k < with_fonts(t).len() implies (#[trigger] with_fonts(t)[k]).0
            != c by {
            if k < with_fonts(u).len() {
                assert(with_fonts(t)[k] == with_fonts(u)[k]);
            }
        }
    }
}

/// Lists of numbers as sequences.
pub open spec fn number_lists(v: Seq<Vec<u32>>) -> Seq<Seq<u32>> {
    Seq::new(v.len(), |i: int| v[i]@)
}

proof fn lemma_sigma_place(s: Seq<(char, Vec<u32>)>, c: char)
    ensures
        sigma_slot(s, c) is Some <==> exists|k: int| 0 <= k < s.len() && (#[trigger] s[k]).0 == c,
        sigma_slot(s, c) matches Some(k) ==> 0 <= k < s.len() && s[k].0 == c,
    decreases s.len(),
{
    if s.len() > 0 {
        let t = s.drop_last();
        lemma_sigma_place(t, c);
        assert(s[s.len() - 1] == s.last());
        if exists|k: int| 0 <= k < t.len() && (#[trigger] t[k]).0 == c {
            let k = choose|k: int| 0 <= k < t.len() && (#[trigger] t[k]).0 == c;
            assert(s[k].0 == c);
        }
        if exists|k: int| 0 <= k < s.len() && (#[trigger] s[k]).0 == c {
            let k = choose|k: int| 0 <= k < s.len() && (#[trigger] s[k]).0 == c;
            if k < t.len() {
                assert(t[k].0 == c);
            }
        }
    }
}

/// Once they are filled in, there are spreads for just the characters that have fonts.
pub proof fn law_spreads_filled(index: CharIndex, spreads: Seq<Seq<u32>>, c: char)
    requires
        index.wf(),
        index.rebuilt(),
        index.has_spreads(spreads),
    ensures
        sigma_slot(index.dim_sigmas@, c) is Some <==> fonts_of(index.table(), c).len() > 0,
{
    let rows = with_fonts(index.table());
    lemma_with_fonts(index.table(), c);
    lemma_with_fonts_some(index.table());
    lemma_sigma_place(index.dim_sigmas@, c);
    if exists|k: int| 0 <= k < rows.len() && (#[trigger] rows[k]).0 == c {
        let k = choose|k: int| 0 <= k < rows.len() && (#[trigger] rows[k]).0 == c;
        assert(index.flat_ids@[k].0 == c);
        assert(index.dim_sigmas@[k].0 == c);
        assert(rows[k].1.len() > 0);
    } else if sigma_slot(index.dim_sigmas@, c) is Some {
        let k = sigma_slot(index.dim_sigmas@, c)->0;
        assert(index.dim_sigmas@[k].0 == index.flat_ids@[k].0);
        assert(rows[k].0 == c);
    }
}

proof fn lemma_with_fonts_some(t: Seq<CharRow>)
    ensures
        forall|k: int| 0 <= k < with_fonts(t).len() ==> (#[trigger] with_fonts(t)[k]).1.len() > 0,
    decreases t.len(),
{
    if t.len() > 0 {
        let u = t.drop_last();
        lemma_with_fonts_some(u);
        assert forall|k: int| 0 <= k < with_fonts(t).len() implies (#[trigger] with_fonts(
            t,
        )[k]).1.len() > 0 by {
            if k < with_fonts(u).len() {
                assert(with_fonts(t)[k] == with_fonts(u)[k]);
            }
        }
    }
}

/// The position of the spreads of a character; of several, the last.
pub open spec fn sigma_slot(s: Seq<(char, Vec<u32>)>, c: char) -> Option<int>
    decreases s.len(),
{
    if s.len() == 0 {
        None
    } else if s.last().0 == c {
        Some(s.len() - 1)
    } else {
        sigma_slot(s.drop_last(), c)
    }
}

/// Adds names to a set.
fn add_names(names: &Vec<Vec<char>>, set: &mut NameSet)
    requires
        old(set).wf(),
    ensures
        final(set).wf(),
        forall|s: Seq<char>| #[trigger]
            final(set)@.contains(s) <==> old(set)@.contains(s) || views(names@).contains(s),
{
    let n: usize = names.len();
    let ghost start = set@;
    for i in 0..n
        invariant
            n == names@.len(),
            set.wf(),
            forall|s: Seq<char>| #[trigger]
                set@.contains(s) <==> start.contains(s) || views(names@).take(i as int).contains(s),
    {
        let ghost before = set@;
        set.insert(text_of(&names[i]));
        proof {
            let v = views(names@);
            assert(v.take(i + 1) =~= v.take(i as int).push(v[i as int]));
            assert forall|s: Seq<char>| #[trigger]
                set@.contains(s) <==> start.contains(s) || v.take(i + 1).contains(s) by {
                lemma_push_has(v.take(i as int), v[i as int], s);
                assert(before.contains(s) <==> start.contains(s) || v.take(i as int).contains(s));
            }
        }
    }
    assert(views(names@).take(n as int) =~= views(names@));
}

/// How many fonts the index knows.
pub fn count_fonts(index: &CharIndex) -> (n: usize)
    requires
        index.wf(),
    ensures
        exists|names: Set<Seq<char>>|
            names.len() == n && names.finite() && forall|s: Seq<char>| #[trigger]
                names.contains(s) <==> index.skipped_fonts@.contains(s) || has_font(
                    index.table(),
                    s,
                ),
{
    let names: NameSet = index.font_names();
    proof {
        texts(names.names@).unique_seq_to_set();
        assert(names@.finite());
    }
    names.len()
}

// --- Merging and pruning ---

/// Some font of a row has this name.
pub open spec fn names_in(row: Seq<FontRow>, name: Seq<char>) -> bool {
    exists|k: int| 0 <= k < row.len() && (#[trigger] row[k]).0 == name
}

/// The fonts of `fresh` whose names do not occur in `known`.
pub open spec fn unknown_fonts(known: Seq<FontRow>, fresh: Seq<FontRow>) -> Seq<FontRow>
    decreases fresh.len(),
{
    if fresh.len() == 0 {
        Seq::empty()
    } else if names_in(known, fresh.last().0) {
        unknown_fonts(known, fresh.drop_last())
    } else {
        unknown_fonts(known, fresh.drop_last()).push(fresh.last())
    }
}

/// The first `n` characters of `more` merged into a table: each character keeps its fonts
/// and gains those of `more` that it did not have.
pub open spec fn merged(t: Seq<CharRow>, more: Seq<CharRow>, n: int) -> Seq<CharRow>
    decreases n,
{
    if n <= 0 {
        t
    } else {
        let u = merged(t, more, n - 1);
        let c = more[n - 1].0;
        let known = fonts_of(u, c);
        put(u, c, known + unknown_fonts(known, more[n - 1].1))
    }
}

fn copy_entry(e: &FontCharEntry) -> (r: FontCharEntry)
    requires
        e.features.wf(),
    ensures
        font_row(r) == font_row(*e),
        r.features.wf(),
{
    FontCharEntry {
        font_name: copy_of(e.font_name.as_str()),
        features: CharFeatures::from_slice(&e.features.as_slice()),
    }
}

fn copy_row(row: &Vec<FontCharEntry>) -> (r: Vec<FontCharEntry>)
    requires
        rows_wf(row@),
    ensures
        font_rows(r@) == font_rows(row@),
        rows_wf(r@),
{
    let mut out: Vec<FontCharEntry> = Vec::new();
    let n: usize = row.len();
    for i in 0..n
        invariant
            n == row@.len(),
            rows_wf(row@),
            out@.len() == i,
            rows_wf(out@),
            forall|k: int| 0 <= k < i ==> font_row(#[trigger] out@[k]) == font_row(row@[k]),
    {
        assert(row@[i as int].features.wf());
        out.push(copy_entry(&row[i]));
    }
    assert(font_rows(out@) =~= font_rows(row@));
    out
}

fn row_has(row: &Vec<FontCharEntry>, name: &str) -> (r: bool)
    ensures
        r == names_in(font_rows(row@), name@),
{
    let ghost t = font_rows(row@);
    let n: usize = row.len();
    for k in 0..n
        invariant
            n == row@.len(),
            t == font_rows(row@),
            forall|j: int| 0 <= j < k ==> (#[trigger] t[j]).0 != name@,
    {
        assert(t[k as int].0 == row@[k as int].font_name@);
        if same_text(row[k].font_name.as_str(), name) {
            return true;
        }
    }
    false
}

/// A row with the fonts of another that it does not have yet.
fn extended_row(known: &Vec<FontCharEntry>, fresh: &Vec<FontCharEntry>) -> (r: Vec<FontCharEntry>)
    requires
        rows_wf(known@),
        rows_wf(fresh@),
    ensures
        rows_wf(r@),
        font_rows(r@) == font_rows(known@) + unknown_fonts(font_rows(known@), font_rows(fresh@)),
{
    let ghost kr = font_rows(known@);
    let ghost fr = font_rows(fresh@);
    let mut out: Vec<FontCharEntry> = copy_row(known);
    let n: usize = fresh.len();
    assert(kr + unknown_fonts(kr, fr.take(0)) =~= kr);
    for i in 0..n
        invariant
            n == fresh@.len(),
            rows_wf(fresh@),
            rows_wf(out@),
            kr == font_rows(known@),
            fr == font_rows(fresh@),
            font_rows(out@) == kr + unknown_fonts(kr, fr.take(i as int)),
    {
        let ghost before = font_rows(out@);
        assert(fr.take(i + 1).drop_last() =~= fr.take(i as int));
        assert(fr.take(i + 1).last() == font_row(fresh@[i as int]));
        assert(fresh@[i as int].features.wf());
        if !row_has(known, fresh[i].font_name.as_str()) {
            let e: FontCharEntry = copy_entry(&fresh[i]);
            let ghost row = font_row(e);
            out.push(e);
            assert(font_rows(out@) =~= before.push(row));
            assert(font_rows(out@) =~= kr + unknown_fonts(kr, fr.take(i + 1)));
        }
    }
    assert(fr.take(n as int) =~= fr);
    out
}

/// The fonts of a row whose names are not in a set.
pub open spec fn without(row: Seq<FontRow>, names: Set<Seq<char>>) -> Seq<FontRow>
    decreases row.len(),
{
    if row.len() == 0 {
        Seq::empty()
    } else if names.contains(row.last().0) {
        without(row.drop_last(), names)
    } else {
        without(row.drop_last(), names).push(row.last())
    }
}

/// Every row of a table without the fonts whose names are in a set.
pub open spec fn pruned(t: Seq<CharRow>, names: Set<Seq<char>>) -> Seq<CharRow> {
    Seq::new(t.len(), |i: int| (t[i].0, without(t[i].1, names)))
}

fn pruned_row(row: &Vec<FontCharEntry>, names: &NameSet) -> (r: Vec<FontCharEntry>)
    requires
        rows_wf(row@),
    ensures
        rows_wf(r@),
        font_rows(r@) == without(font_rows(row@), names@),
{
    let ghost rows = font_rows(row@);
    let mut out: Vec<FontCharEntry> = Vec::new();
    let n: usize = row.len();
    assert(font_rows(out@) =~= without(rows.take(0), names@));
    for i in 0..n
        invariant
            n == row@.len(),
            rows_wf(row@),
            rows_wf(out@),
            rows == font_rows(row@),
            font_rows(out@) == without(rows.take(i as int), names@),
    {
        let ghost before = font_rows(out@);
        assert(rows.take(i + 1).drop_last() =~= rows.take(i as int));
        assert(rows.take(i + 1).last() == font_row(row@[i as int]));
        assert(row@[i as int].features.wf());
        if !names.contains(row[i].font_name.as_str()) {
            let e: FontCharEntry = copy_entry(&row[i]);
            let ghost r = font_row(e);
            out.push(e);
            assert(font_rows(out@) =~= before.push(r));
        }
    }
    assert(rows.take(n as int) =~= rows);
    out
}

impl CharIndex {
    /// Merges another index into this one. Fonts that a character already has are kept as
    /// they are; the others are added behind them.
    pub fn merge(&mut self, other: CharIndex)
        requires
            old(self).wf(),
            other.wf(),
        ensures
            final(self).wf(),
            final(self).rebuilt(),
            final(self).table() == merged(
                old(self).table(),
                other.table(),
                other.table().len() as int,
            ),
            final(self).skipped_fonts@ == old(self).skipped_fonts@.union(other.skipped_fonts@),
            final(self).dim_sigmas@.len() == 0,
    {
        let ghost t0 = self.table();
        let ghost more = other.table();
        let ghost sk0 = self.skipped_fonts@;
        let n: usize = other.entries.len();
        for i in 0..n
            invariant
                n == other.entries@.len(),
                other.wf(),
                more == other.table(),
                self.wf(),
                self.skipped_fonts@ == sk0,
                self.table() == merged(t0, more, i as int),
        {
            let ghost u = self.table();
            let c: char = other.entries[i].ch;
            assert(more[i as int] == char_row(other.entries@[i as int]));
            assert(rows_wf(other.entries@[i as int].fonts@));
            let row: Vec<FontCharEntry> = match find_char(&self.entries, c) {
                Some(k) => {
                    assert(u[k as int] == char_row(self.entries@[k as int]));
                    assert(rows_wf(self.entries@[k as int].fonts@));
                    extended_row(&self.entries[k].fonts, &other.entries[i].fonts)
                },
                None => {
                    let none: Vec<FontCharEntry> = Vec::new();
                    assert(font_rows(none@) =~= Seq::<FontRow>::empty());
                    extended_row(&none, &other.entries[i].fonts)
                },
            };
            put_fonts(&mut self.entries, c, row);
        }
        let m: usize = other.skipped_fonts.names.len();
        let ghost sk = texts(other.skipped_fonts.names@);
        assert(sk0 =~= sk0.union(sk.take(0).to_set()));
        for i in 0..m
            invariant
                m == other.skipped_fonts.names@.len(),
                sk == texts(other.skipped_fonts.names@),
                self.wf(),
                self.table() == merged(t0, more, n as int),
                self.skipped_fonts@ == sk0.union(sk.take(i as int).to_set()),
        {
            self.skipped_fonts.insert(copy_of(other.skipped_fonts.names[i].as_str()));
            proof {
                assert(sk.take(i + 1) =~= sk.take(i as int).push(sk[i as int]));
                assert forall|x: Seq<char>| #[trigger]
                    self.skipped_fonts@.contains(x) <==> sk0.union(
                        sk.take(i + 1).to_set(),
                    ).contains(x) by {
                    lemma_push_has(sk.take(i as int), sk[i as int], x);
                }
                assert(self.skipped_fonts@ =~= sk0.union(sk.take(i + 1).to_set()));
            }
        }
        assert(sk.take(m as int) =~= sk);
        self.rebuild_vecs();
    }

    /// Removes all fonts with the given names.
    pub fn remove_fonts(&mut self, names: &NameSet)
        requires
            old(self).wf(),
        ensures
            final(self).wf(),
            final(self).rebuilt(),
            final(self).table() == pruned(old(self).table(), names@),
            final(self).skipped_fonts@ == old(self).skipped_fonts@.difference(names@),
            final(self).dim_sigmas@.len() == 0,
    {
        let ghost t0 = self.table();
        let n: usize = self.entries.len();
        let mut entries: Vec<CharFonts> = Vec::new();
        for i in 0..n
            invariant
                n == self.entries@.len(),
                self.wf(),
                t0 == self.table(),
                entries@.len() == i,
                forall|k: int| 0 <= k < i ==> rows_wf((#[trigger] entries@[k]).fonts@),
                forall|k: int|
                    0 <= k < i ==> char_row(#[trigger] entries@[k]) == (
                        t0[k].0,
                        without(t0[k].1, names@),
                    ),
        {
            assert(t0[i as int] == char_row(self.entries@[i as int]));
            assert(rows_wf(self.entries@[i as int].fonts@));
            entries.push(
                CharFonts {
                    ch: self.entries[i].ch,
                    fonts: pruned_row(&self.entries[i].fonts, names),
                },
            );
        }
        assert(char_rows(entries@) =~= pruned(t0, names@));
        assert(distinct_chars(pruned(t0, names@))) by {
            assert forall|i: int, j: int| 0 <= i < j < t0.len() implies (#[trigger] pruned(
                t0,
                names@,
            )[i]).0 != (#[trigger] pruned(t0, names@)[j]).0 by {
                assert(t0[i].0 != t0[j].0);
            }
        }
        let ghost sk0 = texts(self.skipped_fonts.names@);
        let m: usize = self.skipped_fonts.names.len();
        let mut skipped: NameSet = NameSet::new();
        for i in 0..m
            invariant
                m == self.skipped_fonts.names@.len(),
                sk0 == texts(self.skipped_fonts.names@),
                skipped.wf(),
                forall|x: Seq<char>| #[trigger]
                    skipped@.contains(x) <==> sk0.take(i as int).contains(x) && !names@.contains(x),
        {
            let ghost before = skipped@;
            if !names.contains(self.skipped_fonts.names[i].as_str()) {
                skipped.insert(copy_of(self.skipped_fonts.names[i].as_str()));
            }
            proof {
                assert(sk0.take(i + 1) =~= sk0.take(i as int).push(sk0[i as int]));
                assert forall|x: Seq<char>| #[trigger]
                    skipped@.contains(x) <==> sk0.take(i + 1).contains(x) && !names@.contains(x) by {
                    lemma_push_has(sk0.take(i as int), sk0[i as int], x);
                    assert(before.contains(x) <==> sk0.take(i as int).contains(x)
                        && !names@.contains(x));
                }
            }
        }
        assert(sk0.take(m as int) =~= sk0);
        assert(skipped@ =~= self.skipped_fonts@.difference(names@));
        self.entries = entries;
        self.skipped_fonts = skipped;
        self.rebuild_vecs();
    }
}

/// After a merge, each character has its former fonts in front, then the fonts of the
/// other index that it did not have; characters of neither index have none.
pub proof fn law_merge_row(t: Seq<CharRow>, more: Seq<CharRow>, c: char)
    requires
        distinct_chars(t),
        distinct_chars(more),
    ensures
        distinct_chars(merged(t, more, more.len() as int)),
        fonts_of(merged(t, more, more.len() as int), c) == fonts_of(t, c) + unknown_fonts(
            fonts_of(t, c),
            fonts_of(more, c),
        ),
{
    lemma_merge_row(t, more, more.len() as int, c);
    assert(more.take(more.len() as int) =~= more);
}

proof fn lemma_merge_row(t: Seq<CharRow>, more: Seq<CharRow>, n: int, c: char)
    requires
        distinct_chars(t),
        distinct_chars(more),
        0 <= n <= more.len(),
    ensures
        distinct_chars(merged(t, more, n)),
        fonts_of(merged(t, more, n), c) == fonts_of(t, c) + unknown_fonts(
            fonts_of(t, c),
            fonts_of(more.take(n), c),
        ),
    decreases n,
{
    let none = Seq::<FontRow>::empty();
    assert(fonts_of(t, c) + unknown_fonts(fonts_of(t, c), none) =~= fonts_of(t, c));
    if n > 0 {
        lemma_merge_row(t, more, n - 1, c);
        let u = merged(t, more, n - 1);
        let d = more[n - 1].0;
        let known = fonts_of(u, d);
        lemma_put_distinct(u, d, known + unknown_fonts(known, more[n - 1].1));
        let head = more.take(n - 1);
        assert(more.take(n).drop_last() =~= head);
        assert(more.take(n).last() == more[n - 1]);
        if d == c {
            lemma_slot(head, c);
            if slot(head, c) is Some {
                let k = slot(head, c)->0;
                assert(more[k].0 != more[n - 1].0);
            }
            assert(fonts_of(head, c) == none);
            assert(fonts_of(u, c) == fonts_of(t, c));
            assert(fonts_of(more.take(n), c) == more[n - 1].1);
        } else {
            lemma_slot(head, c);
            assert(fonts_of(more.take(n), c) == fonts_of(head, c));
        }
    }
}

/// After removing fonts, none of them is left anywhere in the table, and every other font
/// is still there.
pub proof fn law_pruned(t: Seq<CharRow>, names: Set<Seq<char>>, name: Seq<char>)
    ensures
        has_font(pruned(t, names), name) <==> has_font(t, name) && !names.contains(name),
{
    let u = pruned(t, names);
    if has_font(u, name) {
        let (i, k) = choose|i: int, k: int|
            #![trigger u[i].1[k]]
            0 <= i < u.len() && 0 <= k < u[i].1.len() && u[i].1[k].0 == name;
        lemma_without(t[i].1, names);
        let j = choose|j: int| 0 <= j < t[i].1.len() && (#[trigger] t[i].1[j]) == u[i].1[k];
        assert(t[i].1[j].0 == name);
    }
    if has_font(t, name) && !names.contains(name) {
        let (i, k) = choose|i: int, k: int|
            #![trigger t[i].1[k]]
            0 <= i < t.len() && 0 <= k < t[i].1.len() && t[i].1[k].0 == name;
        lemma_without(t[i].1, names);
        let j = choose|j: int|
            0 <= j < without(t[i].1, names).len() && (#[trigger] without(t[i].1, names)[j])
                == t[i].1[k];
        assert(u[i].1[j].0 == name);
    }
}

proof fn lemma_without(row: Seq<FontRow>, names: Set<Seq<char>>)
    ensures
        forall|k: int|
            0 <= k < without(row, names).len() ==> !names.contains(
                (#[trigger] without(row, names)[k]).0,
            ) && exists|j: int| 0 <= j < row.len() && (#[trigger] row[j]) == without(row, names)[k],
        forall|j: int|
            0 <= j < row.len() && !names.contains((#[trigger] row[j]).0) ==> exists|k: int|
                0 <= k < without(row, names).len() && (#[trigger] without(row, names)[k]) == row[j],
    decreases row.len(),
{
    if row.len() > 0 {
        let head = row.drop_last();
        lemma_without(head, names);
        let w = without(row, names);
        let w0 = without(head, names);
        assert forall|k: int| 0 <= k < w.len() implies !names.contains((#[trigger] w[k]).0)
            && exists|j: int| 0 <= j < row.len() && (#[trigger] row[j]) == w[k] by {
            if k < w0.len() {
                assert(w[k] == w0[k]);
                let j = choose|j: int| 0 <= j < head.len() && (#[trigger] head[j]) == w0[k];
                assert(row[j] == w[k]);
            } else {
                assert(row[row.len() - 1] == w[k]);
            }
        }
        assert forall|j: int| 0 <= j < row.len() && !names.contains((#[trigger] row[j]).0) implies exists|
            k: int,
        | 0 <= k < w.len() && (#[trigger] w[k]) == row[j] by {
            if j < head.len() {
                assert(head[j] == row[j]);
                let k = choose|k: int| 0 <= k < w0.len() && (#[trigger] w0[k]) == head[j];
                assert(w[k] == row[j]);
            } else {
                assert(w[w0.len() as int] == row[j]);
            }
        }
    }
}

// --- Building ---

/// What one font contributes: an entry for each character that it has, or its name if it
/// has none of them.
pub struct FontResult {
    pub font_name: String,
    pub char_entries: Vec<(char, FontCharEntry)>,
}

/// The entries of one font for character `c`, among its first `n`.
pub open spec fn own_rows(v: Seq<(char, FontCharEntry)>, c: char, n: int) -> Seq<FontRow>
    decreases n,
{
    if n <= 0 {
        Seq::empty()
    } else if v[n - 1].0 == c {
        own_rows(v, c, n - 1).push(font_row(v[n - 1].1))
    } else {
        own_rows(v, c, n - 1)
    }
}

/// The entries of the first `n` fonts for character `c`.
pub open spec fn built_rows(v: Seq<FontResult>, c: char, n: int) -> Seq<FontRow>
    decreases n,
{
    if n <= 0 {
        Seq::empty()
    } else {
        built_rows(v, c, n - 1) + own_rows(
            v[n - 1].char_entries@,
            c,
            v[n - 1].char_entries@.len() as int,
        )
    }
}

/// One of the first `n` fonts has this name and no entries.
pub open spec fn is_skipped(v: Seq<FontResult>, n: int, name: Seq<char>) -> bool {
    exists|i: int|
        0 <= i < n && (#[trigger] v[i]).font_name@ == name && v[i].char_entries@.len() == 0
}

/// The entries of all fonts for one character.
fn build_row(results: &Vec<FontResult>, c: char) -> (fonts: Vec<FontCharEntry>)
    requires
        forall|a: int, b: int|
            0 <= a < results@.len() && 0 <= b < results@[a].char_entries@.len() ==> (
            #[trigger] results@[a].char_entries@[b]).1.features.wf(),
    ensures
        rows_wf(fonts@),
        font_rows(fonts@) == built_rows(results@, c, results@.len() as int),
{
    let m: usize = results.len();
    let mut fonts: Vec<FontCharEntry> = Vec::new();
    assert(font_rows(fonts@) =~= built_rows(results@, c, 0));
    for j in 0..m
        invariant
            m == results@.len(),
            forall|a: int, b: int|
                 0 <= a < results@.len() && 0 <= b < results@[a].char_entries@.len() ==> (
                #[trigger] results@[a].char_entries@[b]).1.features.wf(),
            rows_wf(fonts@),
            font_rows(fonts@) == built_rows(results@, c, j as int),
    {
        let ghost start = font_rows(fonts@);
        let len: usize = results[j].char_entries.len();
        let ghost own = results@[j as int].char_entries@;
        assert(start + own_rows(own, c, 0) =~= start);
        for k in 0..len
            invariant
                j < m,
                m == results@.len(),
                len == results@[j as int].char_entries@.len(),
                own == results@[j as int].char_entries@,
                forall|a: int, b: int|
                     0 <= a < results@.len() && 0 <= b < results@[a].char_entries@.len() ==> (
                    #[trigger] results@[a].char_entries@[b]).1.features.wf(),
                rows_wf(fonts@),
                font_rows(fonts@) == start + own_rows(own, c, k as int),
        {
            if results[j].char_entries[k].0 == c {
                let ghost before = font_rows(fonts@);
                assert(results@[j as int].char_entries@[k as int].1.features.wf());
                let e: FontCharEntry = copy_entry(&results[j].char_entries[k].1);
                let ghost r = font_row(e);
                fonts.push(e);
                assert(font_rows(fonts@) =~= before.push(r));
                assert(font_rows(fonts@) =~= start + own_rows(own, c, k + 1));
            }
        }
    }
    fonts
}

/// One row for each of the given characters.
fn build_rows(results: &Vec<FontResult>, chars: &Vec<char>) -> (entries: Vec<CharFonts>)
    requires
        forall|a: int, b: int|
            0 <= a < results@.len() && 0 <= b < results@[a].char_entries@.len() ==> (
            #[trigger] results@[a].char_entries@[b]).1.features.wf(),
    ensures
        entries@.len() == chars@.len(),
        forall|k: int| 0 <= k < entries@.len() ==> rows_wf((#[trigger] entries@[k]).fonts@),
        forall|k: int|
            0 <= k < entries@.len() ==> char_row(#[trigger] entries@[k]) == (
                chars@[k],
                built_rows(results@, chars@[k], results@.len() as int),
            ),
{
    let n: usize = chars.len();
    let m: usize = results.len();
    let mut entries: Vec<CharFonts> = Vec::new();
    for i in 0..n
        invariant
            n == chars@.len(),
            m == results@.len(),
            forall|a: int, b: int|
                0 <= a < results@.len() && 0 <= b < results@[a].char_entries@.len() ==> (
                #[trigger] results@[a].char_entries@[b]).1.features.wf(),
            entries@.len() == i,
            forall|k: int| 0 <= k < i ==> rows_wf((#[trigger] entries@[k]).fonts@),
            forall|k: int|
                0 <= k < i ==> char_row(#[trigger] entries@[k]) == (
                    chars@[k],
                    built_rows(results@, chars@[k], m as int),
                ),
    {
        let c: char = char_at(chars, i);
        let fonts: Vec<FontCharEntry> = build_row(results, c);
        entries.push(CharFonts { ch: c, fonts });
    }
    entries
}

/// Puts the index together from what the fonts contribute: one row for each indexed
/// character, with the fonts in their given order.
pub fn build_char_index(results: &Vec<FontResult>) -> (index: CharIndex)
    requires
        forall|a: int, b: int|
             0 <= a < results@.len() && 0 <= b < results@[a].char_entries@.len() ==> (
            #[trigger] results@[a].char_entries@[b]).1.features.wf(),
    ensures
        index.wf(),
        index.rebuilt(),
        index.dim_sigmas@.len() == 0,
        index.table().len() == crate::features::indexed().len(),
        forall|i: int|
            0 <= i < index.table().len() ==> (#[trigger] index.table()[i]) == (
                crate::features::indexed()[i],
                built_rows(results@, crate::features::indexed()[i], results@.len() as int),
            ),
        forall|name: Seq<char>| #[trigger]
            index.skipped_fonts@.contains(name) <==> is_skipped(
                results@,
                results@.len() as int,
                name,
            ),
{
    let chars: Vec<char> = indexed_chars();
    let n: usize = chars.len();
    let m: usize = results.len();
    let entries: Vec<CharFonts> = build_rows(results, &chars);
    let mut skipped_fonts: NameSet = NameSet::new();
    for j in 0..m
        invariant
            m == results@.len(),
            skipped_fonts.wf(),
            forall|name: Seq<char>| #[trigger]
                skipped_fonts@.contains(name) <==> is_skipped(results@, j as int, name),
    {
        let ghost before = skipped_fonts@;
        if results[j].char_entries.len() == 0 {
            skipped_fonts.insert(copy_of(results[j].font_name.as_str()));
        }
        proof {
            assert forall|name: Seq<char>| #[trigger]
                skipped_fonts@.contains(name) <==> is_skipped(results@, j + 1, name) by {
                if before.contains(name) {
                    let i = choose|i: int|
                        0 <= i < j && (#[trigger] results@[i]).font_name@ == name
                            && results@[i].char_entries@.len() == 0;
                    assert(results@[i].font_name@ == name);
                }
                if skipped_fonts@.contains(name) && !before.contains(name) {
                    assert(results@[j as int].font_name@ == name);
                }
                if is_skipped(results@, j + 1, name) {
                    let i = choose|i: int|
                        0 <= i < j + 1 && (#[trigger] results@[i]).font_name@ == name
                            && results@[i].char_entries@.len() == 0;
                    if i < j {
                        assert(is_skipped(results@, j as int, name));
                    }
                }
            }
        }
    }
    let ghost ents = entries@;
    proof {
        crate::features::law_indexed_distinct();
        assert forall|i: int, j: int| 0 <= i < j < n implies (#[trigger] char_rows(entries@)[i]).0
            != (#[trigger] char_rows(entries@)[j]).0 by {
            assert(char_row(entries@[i]).0 == chars@[i]);
            assert(char_row(entries@[j]).0 == chars@[j]);
        }
    }
    let mut index = CharIndex {
        entries,
        skipped_fonts,
        font_names_table: Vec::new(),
        flat_ids: Vec::new(),
        dim_sigmas: Vec::new(),
    };
    let ghost t = index.table();
    index.rebuild_vecs();
    assert(index.table() == t);
    assert forall|i: int| 0 <= i < t.len() implies (#[trigger] index.table()[i]) == (
        crate::features::indexed()[i],
        built_rows(results@, crate::features::indexed()[i], results@.len() as int),
    ) by {
        assert(char_row(ents[i]) == t[i]);
    }
    index
}

// --- What the tables hold ---

/// A feature vector has 57 numbers: the 32 of the profile, eleven single ones, the four stroke
/// ends, two more single ones, and the eight crossings.
pub proof fn law_vector_layout(f: CharFeatures, i: int)
    requires
        f.wf(),
    ensures
        f.flat().len() == 57,
        0 <= i < 32 ==> f.flat()[i] == f.profile@[i],
        f.flat()[32] == f.aspect,
        f.flat()[33] == f.ink_density,
        f.flat()[34] == f.v_center,
        f.flat()[35] == f.h_balance,
        f.flat()[36] == f.serif_score,
        f.flat()[37] == f.stroke_contrast,
        f.flat()[38] == f.xh_cap_ratio,
        f.flat()[39] == f.counter_area_ratio,
        f.flat()[40] == f.counter_centroid_x,
        f.flat()[41] == f.counter_centroid_y,
        f.flat()[42] == f.counter_aspect,
        0 <= i < 4 ==> f.flat()[43 + i] == f.terminal_angles@[i],
        f.flat()[47] == f.ink_perimeter,
        f.flat()[48] == f.compactness,
        0 <= i < 8 ==> f.flat()[49 + i] == f.h_crossings@[i],
{
}

/// What a character gains by a merge are the fonts of the other index whose names it does not
/// have, in their order.
pub proof fn law_unknown_fonts(known: Seq<FontRow>, fresh: Seq<FontRow>)
    ensures
        unknown_fonts(known, fresh) == fresh.filter(
            |r: FontRow| forall|k: int| 0 <= k < known.len() ==> (#[trigger] known[k]).0 != r.0,
        ),
    decreases fresh.len(),
{
    reveal(Seq::filter);
    if fresh.len() > 0 {
        law_unknown_fonts(known, fresh.drop_last());
        let name = fresh.last().0;
        if names_in(known, name) {
            let k = choose|k: int| 0 <= k < known.len() && (#[trigger] known[k]).0 == name;
            assert(known[k].0 == name);
        } else {
            assert forall|k: int| 0 <= k < known.len() implies (#[trigger] known[k]).0 != name by {}
        }
    }
}

/// What is left of a row are the fonts whose names are not removed, in their order.
pub proof fn law_without(row: Seq<FontRow>, names: Set<Seq<char>>)
    ensures
        without(row, names) == row.filter(|r: FontRow| !names.contains(r.0)),
    decreases row.len(),
{
    reveal(Seq::filter);
    if row.len() > 0 {
        law_without(row.drop_last(), names);
    }
}

/// The rows with fonts are all rows that are not empty, in their order.
pub proof fn law_with_fonts(t: Seq<CharRow>)
    ensures
        with_fonts(t) == t.filter(|r: CharRow| r.1.len() != 0),
    decreases t.len(),
{
    reveal(Seq::filter);
    if t.len() > 0 {
        law_with_fonts(t.drop_last());
    }
}

/// One more font adds its entries for a character behind those of the fonts before it, in
/// their order; entries for other characters are not among them.
pub proof fn law_built_rows(v: Seq<FontResult>, f: FontResult, c: char)
    ensures
        built_rows(v, c, 0).len() == 0,
        built_rows(v.push(f), c, v.len() as int + 1) == built_rows(v, c, v.len() as int)
            + f.char_entries@.filter(|e: (char, FontCharEntry)| e.0 == c).map_values(
            |e: (char, FontCharEntry)| (e.1.font_name@, e.1.features.flat()),
        ),
{
    let n = v.len() as int;
    lemma_built_same(v, v.push(f), c, n);
    assert(v.push(f)[n] == f);
    let own = f.char_entries@;
    lemma_own_rows(own, c, own.len() as int);
    assert(own.take(own.len() as int) =~= own);
}

proof fn lemma_built_same(a: Seq<FontResult>, b: Seq<FontResult>, c: char, n: int)
    requires
        forall|i: int| 0 <= i < n ==> #[trigger] a[i] == b[i],
    ensures
        built_rows(a, c, n) == built_rows(b, c, n),
    decreases n,
{
    if n > 0 {
        lemma_built_same(a, b, c, n - 1);
    }
}

proof fn lemma_own_rows(v: Seq<(char, FontCharEntry)>, c: char, n: int)
    requires
        0 <= n <= v.len(),
    ensures
        own_rows(v, c, n) == v.take(n).filter(|e: (char, FontCharEntry)| e.0 == c).map_values(
            |e: (char, FontCharEntry)| (e.1.font_name@, e.1.features.flat()),
        ),
    decreases n,
{
    reveal(Seq::filter);
    let p = |e: (char, FontCharEntry)| e.0 == c;
    let f = |e: (char, FontCharEntry)| (e.1.font_name@, e.1.features.flat());
    if n > 0 {
        lemma_own_rows(v, c, n - 1);
        assert(v.take(n).drop_last() =~= v.take(n - 1));
        let before = v.take(n - 1).filter(p);
        assert(own_rows(v, c, n) =~= v.take(n).filter(p).map_values(f));
    } else {
        assert(own_rows(v, c, n) =~= v.take(n).filter(p).map_values(f));
    }
}

/// Setting the fonts of a character gives that character those fonts and leaves the fonts of
/// all others; a character that the table lacks gets a row behind the others.
pub proof fn law_put(t: Seq<CharRow>, c: char, d: char, fonts: Seq<FontRow>)
    requires
        distinct_chars(t),
    ensures
        fonts_of(put(t, c, fonts), c) == fonts,
        d != c ==> fonts_of(put(t, c, fonts), d) == fonts_of(t, d),
        (forall|i: int| 0 <= i < t.len() ==> (#[trigger] t[i]).0 != c) ==> put(t, c, fonts)
            == t.push((c, fonts)),
        (exists|i: int| 0 <= i < t.len() && (#[trigger] t[i]).0 == c) ==> put(t, c, fonts).len()
            == t.len(),
        forall|i: int| 0 <= i < t.len() && (#[trigger] t[i]).0 == d ==> fonts_of(t, d) == t[i].1,
        (forall|i: int| 0 <= i < t.len() ==> (#[trigger] t[i]).0 != d) ==> fonts_of(t, d).len() == 0,
{
    lemma_put_distinct(t, c, fonts);
    lemma_slot(t, c);
    lemma_slot(t, d);
    assert forall|i: int| 0 <= i < t.len() && (#[trigger] t[i]).0 == d implies fonts_of(t, d)
        == t[i].1 by {
        lemma_slot_at(t, d, i);
    }
}

/// The spreads of a character are those of its last entry.
pub proof fn law_sigma_slot(s: Seq<(char, Vec<u32>)>, c: char)
    ensures
        match sigma_slot(s, c) {
            Some(k) => 0 <= k < s.len() && s[k].0 == c && forall|j: int|
                k < j < s.len() ==> (#[trigger] s[j]).0 != c,
            None => forall|j: int| 0 <= j < s.len() ==> (#[trigger] s[j]).0 != c,
        },
    decreases s.len(),
{
    if s.len() > 0 && s.last().0 != c {
        law_sigma_slot(s.drop_last(), c);
        let t = s.drop_last();
        match sigma_slot(t, c) {
            Some(k) => {
                assert forall|j: int| k < j < s.len() implies (#[trigger] s[j]).0 != c by {
                    if j < t.len() {
                        assert(t[j].0 != c);
                    }
                }
            },
            None => {
                assert forall|j: int| 0 <= j < s.len() implies (#[trigger] s[j]).0 != c by {
                    if j < t.len() {
                        assert(t[j].0 != c);
                    }
                }
            },
        }
    }
}

/// The position of a character in a table is that of its last row, and there is none exactly if
/// no row is its own.
pub proof fn law_slot(t: Seq<CharRow>, c: char)
    ensures
        slot(t, c) is Some ==> 0 <= slot(t, c)->0 < t.len() && t[slot(t, c)->0].0 == c && forall|
            i: int,
        |
            slot(t, c)->0 < i < t.len() ==> (#[trigger] t[i]).0 != c,
        slot(t, c) is None ==> forall|i: int| 0 <= i < t.len() ==> (#[trigger] t[i]).0 != c,
    decreases t.len(),
{
    if t.len() > 0 && t.last().0 != c {
        let s = t.drop_last();
        law_slot(s, c);
        assert(forall|i: int| 0 <= i < s.len() ==> #[trigger] t[i] == s[i]);
    }
}


} // verus!
