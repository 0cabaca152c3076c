//! The cache directory, and the list of fonts that are allowed.
//!
//! The cache directory is the one given on the command line, else the one in the
//! environment, else a directory below the home directory.

use vstd::prelude::*;
use vstd::string::*;
use crate::paths::{join, join_path};
use crate::text::{
    chars_of, copy_of, join as text_join, law_join_split, law_lines, law_split_joined, lines,
    lines_of, same_text, split, split_chars, text_of, texts, trim, trimmed, views,
};

pub mod paths;

verus! {

/// The cache directory that holds where none is given.
pub open spec fn default_dir(home: Option<Seq<char>>) -> Seq<char> {
    match home {
        Some(h) => join_path(join_path(h, ".cache"@), "unprint"@),
        None => "/tmp/unprint-cache"@,
    }
}

/// The text of an optional string.
pub open spec fn opt_view(s: Option<&str>) -> Option<Seq<char>> {
    match s {
        Some(t) => Some(t@),
        None => None,
    }
}

/// The cache directory where neither the command line nor the environment gives one.
pub fn default_cache_dir(home: Option<&str>) -> (dir: String)
    ensures
        dir@ == default_dir(opt_view(home)),
{
    match home {
        Some(h) => join(join(h, ".cache").as_str(), "unprint"),
        None => copy_of("/tmp/unprint-cache"),
    }
}

/// The active cache directory, given the command line's choice, the environment's, and the
/// home directory. An empty value in the environment counts as none.
pub fn cache_dir(cli: Option<&str>, env: Option<&str>, home: Option<&str>) -> (dir: String)
    ensures
        dir@ == match opt_view(cli) {
            Some(d) => d,
            None => match opt_view(env) {
                Some(e) => if e.len() > 0 {
                    e
                } else {
                    default_dir(opt_view(home))
                },
                None => default_dir(opt_view(home)),
            },
        },
{
    if let Some(d) = cli {
        return copy_of(d);
    }
    if let Some(e) = env {
        if !e.is_empty() {
            return copy_of(e);
        }
    }
    default_cache_dir(home)
}

/// Whether the cache directory is the default one.
pub fn is_default_cache_dir(cli: Option<&str>, env: Option<&str>) -> (r: bool)
    ensures
        r == (cli is None && (env is None || env->0@.len() == 0)),
{
    if cli.is_some() {
        return false;
    }
    match env {
        Some(e) => e.is_empty(),
        None => true,
    }
}

// --- Sets of names ---

/// A set of names, each listed once.
pub struct NameSet {
    pub names: Vec<String>,
}

impl View for NameSet {
    type V = Set<Seq<char>>;

    open spec fn view(&self) -> Set<Seq<char>> {
        texts(self.names@).to_set()
    }
}

impl NameSet {
    /// No name is listed twice.
    pub open spec fn wf(&self) -> bool {
        texts(self.names@).no_duplicates()
    }

    pub fn new() -> (s: NameSet)
        ensures
            s.wf(),
            s@ == Set::<Seq<char>>::empty(),
    {
        let s = NameSet { names: Vec::new() };
        assert(s@ =~= Set::<Seq<char>>::empty());
        s
    }

    /// Whether the set holds a name.
    pub fn contains(&self, name: &str) -> (r: bool)
        ensures
            r == self@.contains(name@),
    {
        let n: usize = self.names.len();
        for i in 0..n
            invariant
                n == self.names@.len(),
                forall|k: int| 0 <= k < i ==> (#[trigger] self.names@[k])@ != name@,
        {
            if same_text(self.names[i].as_str(), name) {
                assert(texts(self.names@)[i as int] == name@);
                return true;
            }
        }
        proof {
            if self@.contains(name@) {
                let k = choose|k: int| 0 <= k < n && texts(self.names@)[k] == name@;
                assert(self.names@[k]@ == name@);
            }
        }
        false
    }

    /// Adds a name.
    pub fn insert(&mut self, name: String)
        requires
            old(self).wf(),
        ensures
            final(self).wf(),
            final(self)@ == old(self)@.insert(name@),
    {
        let known: bool = self.contains(name.as_str());
        let ghost before = texts(self.names@);
        if known {
            assert(self@.insert(name@) =~= self@);
        } else {
            let ghost added = name@;
            self.names.push(name);
            proof {
                let after = texts(self.names@);
                assert(after =~= before.push(added));
                assert forall|p: Seq<char>| after.to_set().contains(p) <==> before.to_set().insert(
                    added,
                ).contains(p) by {
                    if after.contains(p) {
                        let k = choose|k: int| 0 <= k < after.len() && after[k] == p;
                        if k < before.len() {
                            assert(before[k] == p);
                        }
                    }
                    if before.contains(p) {
                        let k = choose|k: int| 0 <= k < before.len() && before[k] == p;
                        assert(after[k] == p);
                    }
                    if p == added {
                        assert(after[before.len() as int] == p);
                    }
                }
                assert(self@ =~= before.to_set().insert(added));
                assert forall|i: int, j: int| 0 <= i < j < after.len() implies after[i]
                    != after[j] by {
                    if j == before.len() {
                        assert(before.contains(after[i])) by {
                            assert(before[i] == after[i]);
                        }
                    }
                }
            }
        }
    }

    /// How many names the set holds.
    pub fn len(&self) -> (n: usize)
        requires
            self.wf(),
        ensures
            n == self@.len(),
    {
        proof {
            texts(self.names@).unique_seq_to_set();
        }
        self.names.len()
    }
}

// --- The allowlist ---

/// `p` is one of the comma-separated entries of `s`, trimmed and not empty.
pub open spec fn is_entry(s: Seq<char>, p: Seq<char>) -> bool {
    p.len() > 0 && exists|i: int|
        0 <= i < split(s, ',').len() && p == trim(#[trigger] split(s, ',')[i])
}

/// The comma-separated entries of `s`, trimmed and not empty.
pub open spec fn entries(s: Seq<char>) -> Set<Seq<char>> {
    Set::new(|p: Seq<char>| is_entry(s, p))
}

/// A line of a list file carries entries: it is neither blank nor a comment.
pub open spec fn is_data_line(line: Seq<char>) -> bool {
    trim(line).len() > 0 && trim(line)[0] != '#'
}

/// `p` is an entry of one of the first `n` lines of a list file.
pub open spec fn in_lines(content: Seq<char>, n: int, p: Seq<char>) -> bool {
    exists|i: int|
        0 <= i < n && is_data_line(#[trigger] lines(content)[i]) && is_entry(
            trim(lines(content)[i]),
            p,
        )
}

/// The entries of all data lines of a list file.
pub open spec fn file_entries(content: Seq<char>) -> Set<Seq<char>> {
    Set::new(|p: Seq<char>| in_lines(content, lines(content).len() as int, p))
}

/// Adds the comma-separated entries of a text to a set.
fn add_entries(s: &Vec<char>, set: &mut NameSet)
    requires
        old(set).wf(),
    ensures
        final(set).wf(),
        final(set)@ == old(set)@.union(entries(s@)),
{
    let parts: Vec<Vec<char>> = split_chars(s, ',');
    let n: usize = parts.len();
    let ghost start = set@;
    assert(set@ =~= start.union(Set::empty()));
    for i in 0..n
        invariant
            n == parts@.len(),
            views(parts@) == split(s@, ','),
            set.wf(),
            forall|p: Seq<char>| #[trigger]
                set@.contains(p) <==> start.contains(p) || (p.len() > 0 && exists|k: int|
                    0 <= k < i && p == trim(#[trigger] parts@[k]@)),
    {
        let p: Vec<char> = trimmed(&parts[i]);
        let ghost before = set@;
        if p.len() > 0 {
            set.insert(text_of(&p));
        }
        proof {
            assert forall|q: Seq<char>| #[trigger]
                set@.contains(q) <==> start.contains(q) || (q.len() > 0 && exists|k: int|
                    0 <= k < i + 1 && q == trim(#[trigger] parts@[k]@)) by {
                if set@.contains(q) && !before.contains(q) {
                    assert(q == trim(parts@[i as int]@));
                }
                if q.len() > 0 && exists|k: int|
                    0 <= k < i + 1 && q == trim(#[trigger] parts@[k]@) {
                    let k = choose|k: int| 0 <= k < i + 1 && q == trim(#[trigger] parts@[k]@);
                    if k < i {
                        assert(before.contains(q));
                    }
                }
                if before.contains(q) && !start.contains(q) {
                    let k = choose|k: int| 0 <= k < i && q == trim(#[trigger] parts@[k]@);
                    assert(q == trim(parts@[k]@));
                }
            }
        }
    }
    proof {
        assert forall|p: Seq<char>| set@.contains(p) <==> start.union(entries(s@)).contains(p) by {
            if p.len() > 0 && exists|k: int| 0 <= k < n && p == trim(#[trigger] parts@[k]@) {
                let k = choose|k: int| 0 <= k < n && p == trim(#[trigger] parts@[k]@);
                assert(split(s@, ',')[k] == parts@[k]@);
            }
            if is_entry(s@, p) {
                let k = choose|k: int|
                    0 <= k < split(s@, ',').len() && p == trim(#[trigger] split(s@, ',')[k]);
                assert(parts@[k]@ == split(s@, ',')[k]);
            }
        }
        assert(set@ =~= start.union(entries(s@)));
    }
}

/// Reads a list file: one or more comma-separated names per line, blank lines and lines
/// that start with a hash sign aside.
pub fn parse_list_file(content: &str) -> (set: NameSet)
    ensures
        set.wf(),
        set@ == file_entries(content@),
{
    let all: Vec<Vec<char>> = lines_of(&chars_of(content));
    let n: usize = all.len();
    let mut set: NameSet = NameSet::new();
    for i in 0..n
        invariant
            n == all@.len(),
            views(all@) == lines(content@),
            set.wf(),
            forall|p: Seq<char>| #[trigger] set@.contains(p) <==> in_lines(content@, i as int, p),
    {
        let line: Vec<char> = trimmed(&all[i]);
        let ghost before = set@;
        assert(lines(content@)[i as int] == all@[i as int]@);
        if line.len() > 0 && line[0] != '#' {
            add_entries(&line, &mut set);
        }
        proof {
            assert forall|p: Seq<char>| #[trigger] set@.contains(p) <==> in_lines(
                content@,
                i + 1,
                p,
            ) by {
                if set@.contains(p) {
                    if before.contains(p) {
                        let k = choose|k: int|
                            0 <= k < i && is_data_line(#[trigger] lines(content@)[k]) && is_entry(
                                trim(lines(content@)[k]),
                                p,
                            );
                        assert(is_data_line(lines(content@)[k]));
                    } else {
                        assert(is_data_line(lines(content@)[i as int]));
                    }
                }
                if in_lines(content@, i + 1, p) {
                    let k = choose|k: int|
                        0 <= k < i + 1 && is_data_line(#[trigger] lines(content@)[k]) && is_entry(
                            trim(lines(content@)[k]),
                            p,
                        );
                    if k < i {
                        assert(in_lines(content@, i as int, p));
                    }
                }
            }
        }
    }
    assert(set@ =~= file_entries(content@));
    set
}

/// The file that an allowlist setting names with a leading at sign.
pub fn allowlist_at_path(s: &str) -> (r: Option<String>)
    ensures
        r is Some <==> trim(s@).len() > 0 && trim(s@)[0] == '@',
        r is Some ==> r->0@ == trim(s@).subrange(1, trim(s@).len() as int),
{
    let t: Vec<char> = trimmed(&chars_of(s));
    if t.len() > 0 && t[0] == '@' {
        Some(text_of(&crate::text::slice_of(&t, 1, t.len())))
    } else {
        None
    }
}

/// The allowlist that a setting denotes. `at_file` is the content of the file that the
/// setting names with a leading at sign, `plain_file` that of the file whose path the
/// setting is, each `None` where there is no such file.
pub fn parse_allowlist_str(s: &str, at_file: Option<&str>, plain_file: Option<&str>) -> (set:
    NameSet)
    ensures
        set.wf(),
        set@ == ({
            let t = trim(s@);
            if t.len() == 0 {
                Set::<Seq<char>>::empty()
            } else if t[0] == '@' && at_file is Some {
                file_entries(at_file->0@)
            } else if plain_file is Some {
                file_entries(plain_file->0@)
            } else {
                entries(t)
            }
        }),
{
    let t: Vec<char> = trimmed(&chars_of(s));
    if t.len() == 0 {
        return NameSet::new();
    }
    if t[0] == '@' {
        if let Some(content) = at_file {
            return parse_list_file(content);
        }
    }
    if let Some(content) = plain_file {
        return parse_list_file(content);
    }
    let mut set: NameSet = NameSet::new();
    add_entries(&t, &mut set);
    assert(Set::<Seq<char>>::empty().union(entries(t@)) =~= entries(t@));
    set
}

/// Whether a font is kept: no list keeps all, a list keeps exactly the fonts that it names.
pub fn allowlist_keep(font_key: &str, allowlist: Option<&NameSet>) -> (r: bool)
    ensures
        r == (allowlist is None || allowlist->0@.contains(font_key@)),
{
    match allowlist {
        None => true,
        Some(set) => set.contains(font_key),
    }
}

/// The entries of two texts with a comma between them are those of both. A text without a comma
/// is one entry, without the white space at its ends; one that is blank has none.
pub proof fn law_entries(s: Seq<char>, t: Seq<char>)
    ensures
        entries(s.push(',') + t) == entries(s).union(entries(t)),
        !s.contains(',') && trim(s).len() > 0 ==> entries(s) == Set::<Seq<char>>::empty().insert(
            trim(s),
        ),
        !s.contains(',') && trim(s).len() == 0 ==> entries(s) == Set::<Seq<char>>::empty(),
{
    law_split_joined(s, t, ',');
    let a = split(s, ',');
    let b = split(t, ',');
    let all = split(s.push(',') + t, ',');
    assert(all == a + b);
    assert forall|p: Seq<char>| is_entry(s.push(',') + t, p) <==> is_entry(s, p) || is_entry(
        t,
        p,
    ) by {
        if is_entry(s.push(',') + t, p) {
            let i = choose|i: int| 0 <= i < all.len() && p == trim(#[trigger] all[i]);
            if i < a.len() {
                assert(all[i] == a[i]);
            } else {
                assert(all[i] == b[i - a.len()]);
            }
        }
        if is_entry(s, p) {
            let i = choose|i: int| 0 <= i < a.len() && p == trim(#[trigger] a[i]);
            assert(all[i] == a[i]);
        }
        if is_entry(t, p) {
            let i = choose|i: int| 0 <= i < b.len() && p == trim(#[trigger] b[i]);
            assert(all[i + a.len()] == b[i]);
        }
    }
    assert(entries(s.push(',') + t) =~= entries(s).union(entries(t)));
    if !s.contains(',') {
        let parts = seq![s];
        assert forall|i: int| 0 <= i < parts.len() implies !(#[trigger] parts[i]).contains(',') by {
            assert(parts[i] == s);
        }
        law_join_split(parts, ',');
        assert(text_join(parts, ',') == s);
        assert(split(s, ',') == parts);
        assert forall|p: Seq<char>| is_entry(s, p) <==> p.len() > 0 && p == trim(s) by {
            if p.len() > 0 && p == trim(s) {
                assert(split(s, ',')[0] == s);
            }
        }
        if trim(s).len() > 0 {
            assert(entries(s) =~= Set::<Seq<char>>::empty().insert(trim(s)));
        } else {
            assert(entries(s) =~= Set::<Seq<char>>::empty());
        }
    }
}

/// A list file is read line by line: a line adds its entries to those of the lines that follow,
/// unless its first character behind the white space is a hash sign.
pub proof fn law_list_file(line: Seq<char>, rest: Seq<char>)
    requires
        !line.contains('\n'),
        line.len() == 0 || line.last() != '\r',
    ensures
        file_entries(Seq::empty()) == Set::<Seq<char>>::empty(),
        trim(line).len() > 0 && trim(line)[0] == '#' ==> file_entries(line.push('\n') + rest)
            == file_entries(rest),
        trim(line).len() == 0 ==> file_entries(line.push('\n') + rest) == file_entries(rest),
        trim(line).len() > 0 && trim(line)[0] != '#' ==> file_entries(line.push('\n') + rest)
            == file_entries(rest).union(entries(trim(line))),
{
    law_lines(line, rest);
    let whole = line.push('\n') + rest;
    let all = lines(whole);
    let tail = lines(rest);
    assert(all == seq![line] + tail);
    let n = all.len() as int;
    let m = tail.len() as int;
    assert forall|p: Seq<char>|
        in_lines(whole, n, p) <==> (in_lines(rest, m, p) || (is_data_line(line) && is_entry(
            trim(line),
            p,
        ))) by {
        if in_lines(whole, n, p) {
            let i = choose|i: int|
                0 <= i < n && is_data_line(#[trigger] lines(whole)[i]) && is_entry(
                    trim(lines(whole)[i]),
                    p,
                );
            if i == 0 {
                assert(all[0] == line);
            } else {
                assert(all[i] == tail[i - 1]);
            }
        }
        if in_lines(rest, m, p) {
            let i = choose|i: int|
                0 <= i < m && is_data_line(#[trigger] lines(rest)[i]) && is_entry(
                    trim(lines(rest)[i]),
                    p,
                );
            assert(all[i + 1] == tail[i]);
            assert(is_data_line(lines(whole)[i + 1]));
        }
        if is_data_line(line) && is_entry(trim(line), p) {
            assert(lines(whole)[0] == line);
        }
    }
    if is_data_line(line) {
        assert(file_entries(whole) =~= file_entries(rest).union(entries(trim(line))));
    } else {
        assert(file_entries(whole) =~= file_entries(rest));
    }
    assert(file_entries(Seq::empty()) =~= Set::<Seq<char>>::empty());
}


} // verus!
