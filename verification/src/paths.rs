//! Slash-separated paths as text.

use vstd::prelude::*;
use vstd::string::*;
use crate::text::{chars_of, copy_of, slice_of, text_of};

verus! {

/// `name` below `dir`. An absolute name stands for itself, and an empty directory adds nothing.
pub open spec fn join_path(dir: Seq<char>, name: Seq<char>) -> Seq<char> {
    if name.len() > 0 && name[0] == '/' {
        name
    } else if dir.len() == 0 || dir.last() == '/' {
        dir + name
    } else {
        dir.push('/') + name
    }
}

/// Joins a directory and a name.
pub fn join(dir: &str, name: &str) -> (r: String)
    ensures
        r@ == join_path(dir@, name@),
{
    let d: Vec<char> = chars_of(dir);
    let n: Vec<char> = chars_of(name);
    if n.len() > 0 && n[0] == '/' {
        return copy_of(name);
    }
    let mut out: String = copy_of(dir);
    if d.len() > 0 && d[d.len() - 1] != '/' {
        out.push('/');
    }
    out.append(name);
    out
}

/// A path without what names no component at its end: slashes and single dots. A lone
/// slash is kept.
pub open spec fn trim_tail(s: Seq<char>) -> Seq<char>
    decreases s.len(),
{
    if s.len() > 1 && s.last() == '/' {
        trim_tail(s.drop_last())
    } else if s.len() > 1 && s.last() == '.' && s[s.len() - 2] == '/' {
        trim_tail(s.drop_last())
    } else {
        s
    }
}

/// The position after the last slash of a path.
pub open spec fn name_start(s: Seq<char>) -> int
    decreases s.len(),
{
    if s.len() == 0 || s.last() == '/' {
        s.len() as int
    } else {
        name_start(s.drop_last())
    }
}

/// The last component of a path, unless the path ends in a parent or names no file.
pub open spec fn file_name(s: Seq<char>) -> Option<Seq<char>> {
    let t = trim_tail(s);
    let name = t.subrange(name_start(t), t.len() as int);
    if name.len() == 0 || name == seq!['.'] || name == seq!['.', '.'] {
        None
    } else {
        Some(name)
    }
}

/// The path without its last component; the root and the empty path have none.
pub open spec fn parent(s: Seq<char>) -> Option<Seq<char>> {
    let t = trim_tail(s);
    let at = name_start(t);
    if t.len() == 0 || at == t.len() {
        None
    } else if at == 0 {
        Some(Seq::empty())
    } else {
        Some(trim_tail(t.subrange(0, at)))
    }
}

/// The position of the last dot, if there is one.
pub open spec fn last_dot(s: Seq<char>) -> Option<int>
    decreases s.len(),
{
    if s.len() == 0 {
        None
    } else if s.last() == '.' {
        Some(s.len() - 1)
    } else {
        last_dot(s.drop_last())
    }
}

/// A file name without its extension; a dot at the start begins no extension.
pub open spec fn stem_of(name: Seq<char>) -> Seq<char> {
    match last_dot(name) {
        Some(i) => if i == 0 {
            name
        } else {
            name.subrange(0, i)
        },
        None => name,
    }
}

/// The stem of a path's file name; empty if it has none.
pub open spec fn file_stem(s: Seq<char>) -> Seq<char> {
    match file_name(s) {
        Some(name) => stem_of(name),
        None => Seq::empty(),
    }
}

/// The path with its file name replaced, or with `name` added if it has none.
pub open spec fn with_file_name(s: Seq<char>, name: Seq<char>) -> Seq<char> {
    match (file_name(s), parent(s)) {
        (Some(_), Some(p)) => join_path(p, name),
        _ => join_path(s, name),
    }
}

proof fn lemma_name_start(s: Seq<char>)
    ensures
        0 <= name_start(s) <= s.len(),
    decreases s.len(),
{
    if s.len() > 0 && s.last() != '/' {
        lemma_name_start(s.drop_last());
    }
}

fn tail_trimmed(v: &Vec<char>) -> (r: Vec<char>)
    ensures
        r@ == trim_tail(v@),
{
    let n: usize = v.len();
    let mut end: usize = n;
    assert(v@.subrange(0, n as int) =~= v@);
    while end > 1 && (v[end - 1] == '/' || (v[end - 1] == '.' && v[end - 2] == '/'))
        invariant
            n == v@.len(),
            end <= n,
            trim_tail(v@) == trim_tail(v@.subrange(0, end as int)),
        decreases end,
    {
        assert(v@.subrange(0, end as int).drop_last() =~= v@.subrange(0, end - 1));
        end = end - 1;
    }
    slice_of(v, 0, end)
}

fn find_name(v: &Vec<char>) -> (at: usize)
    ensures
        at == name_start(v@),
        at <= v@.len(),
{
    let n: usize = v.len();
    let mut at: usize = n;
    assert(v@.subrange(0, n as int) =~= v@);
    while at > 0 && v[at - 1] != '/'
        invariant
            n == v@.len(),
            at <= n,
            name_start(v@) == name_start(v@.subrange(0, at as int)),
        decreases at,
    {
        assert(v@.subrange(0, at as int).drop_last() =~= v@.subrange(0, at - 1));
        at = at - 1;
    }
    at
}

/// The last component of a path, unless the path ends in a parent or names no file.
pub fn file_name_of(path: &str) -> (r: Option<String>)
    ensures
        r is Some <==> file_name(path@) is Some,
        r is Some ==> r->0@ == file_name(path@)->0,
{
    let t: Vec<char> = tail_trimmed(&chars_of(path));
    let at: usize = find_name(&t);
    let name: Vec<char> = slice_of(&t, at, t.len());
    let n: usize = name.len();
    let none: bool = n == 0 || (n == 1 && name[0] == '.') || (n == 2 && name[0] == '.' && name[1]
        == '.');
    assert(none == (name@.len() == 0 || name@ == seq!['.'] || name@ == seq!['.', '.'])) by {
        if n == 1 && name@[0] == '.' {
            assert(name@ =~= seq!['.']);
        }
        if n == 2 && name@[0] == '.' && name@[1] == '.' {
            assert(name@ =~= seq!['.', '.']);
        }
    }
    if none {
        None
    } else {
        Some(text_of(&name))
    }
}

/// The path without its last component; the root and the empty path have none.
pub fn parent_of(path: &str) -> (r: Option<String>)
    ensures
        r is Some <==> parent(path@) is Some,
        r is Some ==> r->0@ == parent(path@)->0,
{
    let t: Vec<char> = tail_trimmed(&chars_of(path));
    let at: usize = find_name(&t);
    if t.len() == 0 || at == t.len() {
        None
    } else if at == 0 {
        Some(String::new())
    } else {
        let head: Vec<char> = slice_of(&t, 0, at);
        Some(text_of(&tail_trimmed(&head)))
    }
}

/// A file name without its extension.
pub fn stem_of_name(name: &str) -> (r: String)
    ensures
        r@ == stem_of(name@),
{
    let v: Vec<char> = chars_of(name);
    let n: usize = v.len();
    let mut at: usize = n;
    assert(v@.subrange(0, n as int) =~= v@);
    while at > 0 && v[at - 1] != '.'
        invariant
            n == v@.len(),
            at <= n,
            last_dot(v@) == last_dot(v@.subrange(0, at as int)),
        decreases at,
    {
        assert(v@.subrange(0, at as int).drop_last() =~= v@.subrange(0, at - 1));
        at = at - 1;
    }
    if at <= 1 {
        copy_of(name)
    } else {
        text_of(&slice_of(&v, 0, at - 1))
    }
}

/// The stem of a path's file name; empty if it has none.
pub fn file_stem_of(path: &str) -> (r: String)
    ensures
        r@ == file_stem(path@),
{
    match file_name_of(path) {
        Some(name) => stem_of_name(name.as_str()),
        None => String::new(),
    }
}

/// Replaces the file name of a path.
pub fn replace_file_name(path: &str, name: &str) -> (r: String)
    ensures
        r@ == with_file_name(path@, name@),
{
    match (file_name_of(path), parent_of(path)) {
        (Some(_), Some(p)) => join(p.as_str(), name),
        _ => join(path, name),
    }
}

/// Joining a plain name to a directory and asking for the file name gives the name back.
pub proof fn law_join_file_name(dir: Seq<char>, name: Seq<char>)
    requires
        name.len() > 0,
        !name.contains('/'),
        name != seq!['.'],
        name != seq!['.', '.'],
    ensures
        file_name(join_path(dir, name)) == Some(name),
{
    let s = join_path(dir, name);
    let at = s.len() - name.len();
    assert(name[0] != '/' && name.last() != '/') by {
        assert(name.contains(name[0]));
        assert(name.contains(name.last()));
    }
    assert(s.last() == name.last());
    assert(s.subrange(at, s.len() as int) =~= name);
    if name.len() == 1 {
        assert(name =~= seq![name[0]]);
        assert(name[0] != '.');
    } else {
        assert(s[s.len() - 2] == name[name.len() - 2]);
        assert(name.contains(name[name.len() - 2]));
    }
    assert(trim_tail(s) == s);
    lemma_name_start_of(s, at);
}

proof fn lemma_name_start_of(s: Seq<char>, at: int)
    requires
        0 <= at <= s.len(),
        at == 0 || s[at - 1] == '/',
        forall|i: int| at <= i < s.len() ==> s[i] != '/',
    ensures
        name_start(s) == at,
    decreases s.len(),
{
    if s.len() > at {
        lemma_name_start_of(s.drop_last(), at);
    }
}

/// The path that a file is written to before it is moved to its place.
pub fn tmp_for(path: &str) -> (r: String)
    ensures
        r@ == path@ + ".tmp"@,
{
    crate::text::joined(path, ".tmp")
}

/// A joined path is the name itself where the name is absolute. Else it is the directory, a
/// slash and the name, where the slash is left out if the directory is empty or ends in one.
pub proof fn law_joined(dir: Seq<char>, name: Seq<char>)
    ensures
        name.len() > 0 && name[0] == '/' ==> join_path(dir, name) == name,
        !(name.len() > 0 && name[0] == '/') ==> ({
            let p = join_path(dir, name);
            let at = p.len() - name.len();
            &&& p.take(dir.len() as int) == dir
            &&& p.skip(at) == name
            &&& at == 0 || p[at - 1] == '/'
            &&& at == dir.len() || at == dir.len() + 1
            &&& at == dir.len() <==> dir.len() == 0 || dir[dir.len() - 1] == '/'
        }),
{
    if !(name.len() > 0 && name[0] == '/') {
        let p = join_path(dir, name);
        assert(p.take(dir.len() as int) =~= dir);
        assert(p.skip(p.len() - name.len()) =~= name);
    }
}

/// The last component begins behind the last slash.
pub proof fn law_name_start(s: Seq<char>)
    ensures
        0 <= name_start(s) <= s.len(),
        name_start(s) == 0 || s[name_start(s) - 1] == '/',
        forall|i: int| name_start(s) <= i < s.len() ==> #[trigger] s[i] != '/',
    decreases s.len(),
{
    if s.len() > 0 && s.last() != '/' {
        let t = s.drop_last();
        law_name_start(t);
        assert(name_start(s) == name_start(t));
        if name_start(t) > 0 {
            assert(t[name_start(t) - 1] == s[name_start(t) - 1]);
        }
        assert forall|i: int| name_start(s) <= i < s.len() implies #[trigger] s[i] != '/' by {
            if i < s.len() - 1 {
                assert(t[i] == s[i]);
            }
        }
    }
}

/// A trimmed path is the beginning of the path. What was cut off is slashes and dots, and each
/// of the dots has a slash before it. What is left does not end in a slash, unless it is a lone
/// one, and not in a component that is a single dot, unless that is all.
pub proof fn law_trim_tail(s: Seq<char>)
    ensures
        trim_tail(s).len() <= s.len(),
        trim_tail(s) == s.take(trim_tail(s).len() as int),
        s.len() > 0 ==> trim_tail(s).len() > 0,
        trim_tail(s).len() > 1 ==> trim_tail(s).last() != '/' && !(trim_tail(s).last() == '.'
            && trim_tail(s)[trim_tail(s).len() - 2] == '/'),
        forall|i: int|
            trim_tail(s).len() <= i < s.len() ==> #[trigger] s[i] == '/' || (s[i] == '.' && s[i - 1]
                == '/'),
    decreases s.len(),
{
    if s.len() > 1 && (s.last() == '/' || (s.last() == '.' && s[s.len() - 2] == '/')) {
        let t = s.drop_last();
        law_trim_tail(t);
        let n = trim_tail(t).len() as int;
        assert(trim_tail(s) == trim_tail(t));
        assert(t.take(n) =~= s.take(n));
        assert forall|i: int| n <= i < s.len() implies #[trigger] s[i] == '/' || (s[i] == '.'
            && s[i - 1] == '/') by {
            if i < s.len() - 1 {
                assert(t[i] == s[i]);
                assert(t[i - 1] == s[i - 1]);
            }
        }
    } else {
        assert(s.take(s.len() as int) =~= s);
    }
}

proof fn lemma_last_dot(s: Seq<char>)
    ensures
        last_dot(s) is Some ==> 0 <= last_dot(s)->0 < s.len() && s[last_dot(s)->0] == '.'
            && forall|i: int| last_dot(s)->0 < i < s.len() ==> #[trigger] s[i] != '.',
        last_dot(s) is None ==> forall|i: int| 0 <= i < s.len() ==> #[trigger] s[i] != '.',
    decreases s.len(),
{
    if s.len() > 0 && s.last() != '.' {
        let t = s.drop_last();
        lemma_last_dot(t);
        assert(forall|i: int| 0 <= i < t.len() ==> #[trigger] s[i] == t[i]);
    }
}

/// A file name loses its last dot and what follows, unless the dot comes first. A name without
/// a dot keeps all of it.
pub proof fn law_stem(base: Seq<char>, ext: Seq<char>)
    requires
        !ext.contains('.'),
    ensures
        base.len() > 0 ==> stem_of(base.push('.') + ext) == base,
        base.len() == 0 ==> stem_of(base.push('.') + ext) == base.push('.') + ext,
        stem_of(ext) == ext,
{
    let name = base.push('.') + ext;
    lemma_last_dot(name);
    lemma_last_dot(ext);
    assert(name[base.len() as int] == '.');
    assert forall|i: int| base.len() < i < name.len() implies #[trigger] name[i] != '.' by {
        assert(name[i] == ext[i - base.len() - 1]);
    }
    assert(last_dot(name) == Some(base.len() as int));
    assert(name.subrange(0, base.len() as int) =~= base);
    if last_dot(ext) is Some {
        assert(ext.contains(ext[last_dot(ext)->0]));
    }
}

/// The parent of a plain name below a directory is the directory, and another name in its place
/// stands below the same directory.
pub proof fn law_join_parent(dir: Seq<char>, name: Seq<char>, other: Seq<char>)
    requires
        name.len() > 0,
        !name.contains('/'),
        name != seq!['.'],
        name != seq!['.', '.'],
    ensures
        parent(join_path(dir, name)) == Some(trim_tail(dir)),
        with_file_name(join_path(dir, name), other) == join_path(trim_tail(dir), other),
{
    law_join_file_name(dir, name);
    let p = join_path(dir, name);
    let at = p.len() - name.len();
    assert forall|i: int| 0 <= i < name.len() implies #[trigger] name[i] != '/' by {
        assert(name.contains(name[i]));
    }
    assert(p.last() == name.last());
    if p.last() == '.' && p.len() > 1 && p[p.len() - 2] == '/' {
        if name.len() == 1 {
            assert(name =~= seq!['.']);
        } else {
            assert(p[p.len() - 2] == name[name.len() - 2]);
        }
    }
    assert(trim_tail(p) == p);
    assert(at > 0 ==> p[at - 1] == '/');
    assert forall|i: int| at <= i < p.len() implies p[i] != '/' by {
        assert(p[i] == name[i - at]);
    }
    lemma_name_start_of(p, at);
    if dir.len() == 0 {
        assert(trim_tail(dir) =~= Seq::<char>::empty());
    } else if dir.last() == '/' {
        assert(p.subrange(0, at) =~= dir);
    } else {
        assert(p.subrange(0, at) =~= dir.push('/'));
        assert(dir.push('/').drop_last() =~= dir);
    }
}


} // verus!
