//! Text helpers: splitting, trimming, searching, case folding and numbers, on sequences of
//! characters.

use vstd::prelude::*;
use vstd::string::*;
use vstd::utf8::is_ascii_chars;

verus! {

// --- Strings and character lists ---

/// `String::push` appends one character.
pub assume_specification[ String::push ](s: &mut String, c: char)
    ensures
        final(s)@ == old(s)@.push(c),
;

/// What `str::to_lowercase` returns for a text.
pub uninterp spec fn lowercased(s: Seq<char>) -> Seq<char>;

/// The lower-case form of an ASCII letter; other characters are kept.
pub open spec fn ascii_lower(c: char) -> char {
    if 'A' <= c && c <= 'Z' {
        ((c as u8) + 32) as u8 as char
    } else {
        c
    }
}

/// Calls `str::to_lowercase`, which maps a text to lower case by Unicode's rules. Only the
/// result on ASCII text is spelled out: there each letter is mapped for itself.
#[verifier::external_body]
fn unicode_lowercase(s: &str) -> (r: String)
    ensures
        r@ == lowercased(s@),
        is_ascii_chars(s@) ==> r@ == Seq::new(s@.len(), |i: int| ascii_lower(s@[i])),
{
    s.to_lowercase()
}

/// A text in lower case: ASCII text letter by letter, other text by Unicode's rules.
pub open spec fn in_lower_case(s: Seq<char>) -> Seq<char> {
    if is_ascii_chars(s) {
        Seq::new(s.len(), |i: int| ascii_lower(s[i]))
    } else {
        lowercased(s)
    }
}

/// A text in lower case.
pub fn to_lowercase(s: &str) -> (r: String)
    ensures
        r@ == in_lower_case(s@),
{
    unicode_lowercase(s)
}

/// ASCII text that is in lower case stays as it is.
pub proof fn law_lower_case_settled(s: Seq<char>)
    requires
        is_ascii_chars(s),
    ensures
        is_ascii_chars(in_lower_case(s)),
        in_lower_case(in_lower_case(s)) == in_lower_case(s),
{
    let t = in_lower_case(s);
    assert forall|i: int| 0 <= i < t.len() implies 0 <= #[trigger] t[i] as u32 && (t[i] as u32) < 128
        && ascii_lower(t[i]) == t[i] by {
        assert((s[i] as u32) < 128);
    }
    assert(in_lower_case(t) =~= t);
}

/// What `char::is_alphanumeric` returns for a character.
pub uninterp spec fn alphanumeric(c: char) -> bool;

/// Calls `char::is_alphanumeric`, which tells letters and numbers of all scripts. Only the
/// result on ASCII is spelled out.
#[verifier::external_body]
pub(crate) fn is_alphanumeric(c: char) -> (r: bool)
    ensures
        r == alphanumeric(c),
        (c as u32) < 128 ==> r == (('0' <= c && c <= '9') || ('A' <= c && c <= 'Z') || ('a' <= c
            && c <= 'z')),
{
    c.is_alphanumeric()
}

/// The characters of a text.
pub fn chars_of(s: &str) -> (r: Vec<char>)
    ensures
        r@ == s@,
{
    let mut out: Vec<char> = Vec::new();
    for c in it: s.chars()
        invariant
            it.seq() == s@,
            out@ == s@.take(it.index()),
    {
        out.push(c);
        assert(out@ =~= s@.take(it.index() + 1));
    }
    assert(s@.take(s@.len() as int) =~= s@);
    out
}

/// The text made of a list of characters.
pub fn text_of(v: &Vec<char>) -> (s: String)
    ensures
        s@ == v@,
{
    let mut s: String = String::new();
    let n: usize = v.len();
    for i in 0..n
        invariant
            n == v@.len(),
            s@ == v@.take(i as int),
    {
        s.push(v[i]);
        assert(s@ =~= v@.take(i + 1));
    }
    assert(v@.take(n as int) =~= v@);
    s
}

/// The character at a position.
pub fn char_at(v: &Vec<char>, i: usize) -> (c: char)
    requires
        i < v@.len(),
    ensures
        c == v@[i as int],
{
    v[i]
}

/// A copy of a range of characters.
pub fn slice_of(v: &Vec<char>, from: usize, to: usize) -> (r: Vec<char>)
    requires
        from <= to <= v@.len(),
    ensures
        r@ == v@.subrange(from as int, to as int),
{
    let mut out: Vec<char> = Vec::new();
    let mut i: usize = from;
    while i < to
        invariant
            from <= i <= to <= v@.len(),
            out@ == v@.subrange(from as int, i as int),
        decreases to - i,
    {
        out.push(v[i]);
        assert(out@ =~= v@.subrange(from as int, i + 1));
        i = i + 1;
    }
    out
}

/// Whether two lists hold the same characters.
pub fn same_chars(a: &Vec<char>, b: &Vec<char>) -> (r: bool)
    ensures
        r == (a@ == b@),
{
    if a.len() != b.len() {
        return false;
    }
    let n: usize = a.len();
    for i in 0..n
        invariant
            n == a@.len(),
            n == b@.len(),
            forall|k: int| 0 <= k < i ==> a@[k] == b@[k],
    {
        if a[i] != b[i] {
            return false;
        }
    }
    assert(a@ =~= b@);
    true
}

/// Whether two texts are equal.
pub fn same_text(a: &str, b: &str) -> (r: bool)
    ensures
        r == (a@ == b@),
{
    same_chars(&chars_of(a), &chars_of(b))
}

/// A copy of a text.
pub fn copy_of(s: &str) -> (r: String)
    ensures
        r@ == s@,
{
    s.to_owned()
}

/// Two texts, one after the other.
pub fn joined(a: &str, b: &str) -> (r: String)
    ensures
        r@ == a@ + b@,
{
    let mut s: String = a.to_owned();
    s.append(b);
    s
}

/// The texts of a list.
pub open spec fn views(v: Seq<Vec<char>>) -> Seq<Seq<char>> {
    Seq::new(v.len(), |i: int| v[i]@)
}

/// The texts of a list of strings.
pub open spec fn texts(v: Seq<String>) -> Seq<Seq<char>> {
    Seq::new(v.len(), |i: int| v[i]@)
}

// --- Searching ---

/// `needle` stands in `hay` at position `i`.
pub open spec fn occurs_at(hay: Seq<char>, needle: Seq<char>, i: int) -> bool {
    0 <= i && i + needle.len() <= hay.len() && hay.subrange(i, i + needle.len()) == needle
}

/// `needle` stands somewhere in `hay`.
pub open spec fn contains(hay: Seq<char>, needle: Seq<char>) -> bool {
    exists|i: int| #[trigger] occurs_at(hay, needle, i)
}

pub open spec fn starts_with(hay: Seq<char>, needle: Seq<char>) -> bool {
    occurs_at(hay, needle, 0)
}

pub open spec fn ends_with(hay: Seq<char>, needle: Seq<char>) -> bool {
    occurs_at(hay, needle, hay.len() - needle.len())
}

/// Whether `needle` stands in `hay` at position `i`.
pub fn found_at(hay: &Vec<char>, needle: &Vec<char>, i: usize) -> (r: bool)
    requires
        i + needle@.len() <= hay@.len(),
    ensures
        r == occurs_at(hay@, needle@, i as int),
{
    let n: usize = needle.len();
    let m: usize = hay.len();
    for k in 0..n
        invariant
            n == needle@.len(),
            m == hay@.len(),
            i + n <= m,
            forall|j: int| 0 <= j < k ==> hay@[i + j] == needle@[j],
    {
        if hay[i + k] != needle[k] {
            assert(hay@.subrange(i as int, i + n)[k as int] != needle@[k as int]);
            return false;
        }
    }
    assert(hay@.subrange(i as int, i + n) =~= needle@);
    true
}

/// Whether `needle` stands somewhere in `hay`.
pub fn has_part(hay: &Vec<char>, needle: &Vec<char>) -> (r: bool)
    ensures
        r == contains(hay@, needle@),
{
    let mut i: usize = 0;
    if needle.len() > hay.len() {
        return false;
    }
    let last: usize = hay.len() - needle.len();
    while i <= last
        invariant
            last == hay@.len() - needle@.len(),
            i <= last + 1,
            last < hay@.len() || needle@.len() == 0,
            forall|k: int| 0 <= k < i ==> !#[trigger] occurs_at(hay@, needle@, k),
        decreases last + 1 - i,
    {
        if found_at(hay, needle, i) {
            return true;
        }
        if i == last {
            return false;
        }
        i = i + 1;
    }
    false
}

/// Whether a text begins with another.
pub fn has_prefix(hay: &Vec<char>, needle: &Vec<char>) -> (r: bool)
    ensures
        r == starts_with(hay@, needle@),
{
    if needle.len() > hay.len() {
        return false;
    }
    found_at(hay, needle, 0)
}

/// Whether a text ends with another.
pub fn has_suffix(hay: &Vec<char>, needle: &Vec<char>) -> (r: bool)
    ensures
        r == ends_with(hay@, needle@),
{
    if needle.len() > hay.len() {
        return false;
    }
    found_at(hay, needle, hay.len() - needle.len())
}

// --- Trimming ---

/// The white-space characters of Unicode.
pub open spec fn is_space(c: char) -> bool {
    let n = c as u32;
    ||| 0x9 <= n <= 0xd
    ||| n == 0x20
    ||| n == 0x85
    ||| n == 0xa0
    ||| n == 0x1680
    ||| 0x2000 <= n <= 0x200a
    ||| n == 0x2028
    ||| n == 0x2029
    ||| n == 0x202f
    ||| n == 0x205f
    ||| n == 0x3000
}

pub fn is_white(c: char) -> (r: bool)
    ensures
        r == is_space(c),
{
    let n: u32 = c as u32;
    (0x9 <= n && n <= 0xd) || n == 0x20 || n == 0x85 || n == 0xa0 || n == 0x1680 || (0x2000 <= n
        && n <= 0x200a) || n == 0x2028 || n == 0x2029 || n == 0x202f || n == 0x205f || n == 0x3000
}

/// A text without the white space at its start.
pub open spec fn trim_start(s: Seq<char>) -> Seq<char>
    decreases s.len(),
{
    if s.len() > 0 && is_space(s[0]) {
        trim_start(s.subrange(1, s.len() as int))
    } else {
        s
    }
}

/// A text without the white space at its end.
pub open spec fn trim_end(s: Seq<char>) -> Seq<char>
    decreases s.len(),
{
    if s.len() > 0 && is_space(s.last()) {
        trim_end(s.drop_last())
    } else {
        s
    }
}

/// A text without the white space at both ends.
pub open spec fn trim(s: Seq<char>) -> Seq<char> {
    trim_end(trim_start(s))
}

/// A copy of a text without the white space at both ends.
pub fn trimmed(v: &Vec<char>) -> (r: Vec<char>)
    ensures
        r@ == trim(v@),
{
    let n: usize = v.len();
    let mut a: usize = 0;
    assert(v@.subrange(0, n as int) =~= v@);
    while a < n && is_white(v[a])
        invariant
            n == v@.len(),
            a <= n,
            trim_start(v@) == trim_start(v@.subrange(a as int, n as int)),
        decreases n - a,
    {
        assert(v@.subrange(a as int, n as int).subrange(1, n - a) =~= v@.subrange(
            a + 1,
            n as int,
        ));
        a = a + 1;
    }
    let ghost rest = v@.subrange(a as int, n as int);
    assert(trim_start(v@) == rest);
    let mut b: usize = n;
    while b > a && is_white(v[b - 1])
        invariant
            n == v@.len(),
            a <= b <= n,
            rest == v@.subrange(a as int, n as int),
            trim_end(rest) == trim_end(v@.subrange(a as int, b as int)),
        decreases b - a,
    {
        assert(v@.subrange(a as int, b as int).drop_last() =~= v@.subrange(a as int, b - 1));
        b = b - 1;
    }
    slice_of(v, a, b)
}

/// Trimming takes nothing but white space from the ends, and trimming again changes nothing.
pub proof fn law_trim_idempotent(s: Seq<char>)
    ensures
        trim(trim(s)) == trim(s),
        trim(s).len() > 0 ==> !is_space(trim(s)[0]) && !is_space(trim(s).last()),
{
    let a = trim_start(s);
    lemma_trim_start(s);
    lemma_trim_end(a);
}

proof fn lemma_trim_start(s: Seq<char>)
    ensures
        trim_start(s).len() > 0 ==> !is_space(trim_start(s)[0]),
    decreases s.len(),
{
    if s.len() > 0 && is_space(s[0]) {
        lemma_trim_start(s.subrange(1, s.len() as int));
    }
}

proof fn lemma_trim_end(s: Seq<char>)
    ensures
        trim_end(s).len() <= s.len(),
        trim_end(s).len() > 0 ==> !is_space(trim_end(s).last()) && trim_end(s)[0] == s[0],
    decreases s.len(),
{
    if s.len() > 0 && is_space(s.last()) {
        lemma_trim_end(s.drop_last());
    }
}

// --- Splitting ---

/// The parts of a text between occurrences of `sep`.
pub open spec fn split(s: Seq<char>, sep: char) -> Seq<Seq<char>>
    decreases s.len(),
{
    if s.len() == 0 {
        seq![Seq::<char>::empty()]
    } else {
        let rest = split(s.drop_last(), sep);
        if s.last() == sep {
            rest.push(Seq::empty())
        } else {
            rest.update(rest.len() - 1, rest.last().push(s.last()))
        }
    }
}

pub proof fn lemma_split_nonempty(s: Seq<char>, sep: char)
    ensures
        split(s, sep).len() >= 1,
    decreases s.len(),
{
    if s.len() > 0 {
        lemma_split_nonempty(s.drop_last(), sep);
    }
}

/// Splits a text at each occurrence of `sep`.
pub fn split_chars(v: &Vec<char>, sep: char) -> (parts: Vec<Vec<char>>)
    ensures
        views(parts@) == split(v@, sep),
        parts@.len() >= 1,
{
    let mut done: Vec<Vec<char>> = Vec::new();
    let mut cur: Vec<char> = Vec::new();
    let n: usize = v.len();
    assert(views(done@).push(cur@) =~= split(v@.take(0), sep));
    for i in 0..n
        invariant
            n == v@.len(),
            views(done@).push(cur@) == split(v@.take(i as int), sep),
    {
        let c: char = v[i];
        let ghost before = views(done@).push(cur@);
        assert(v@.take(i + 1).drop_last() =~= v@.take(i as int));
        if c == sep {
            let mut fresh: Vec<char> = Vec::new();
            std::mem::swap(&mut fresh, &mut cur);
            done.push(fresh);
            assert(views(done@) =~= before);
            assert(cur@ =~= Seq::<char>::empty());
        } else {
            cur.push(c);
            assert(views(done@).push(cur@) =~= before.update(
                before.len() - 1,
                before.last().push(c),
            ));
        }
    }
    assert(v@.take(n as int) =~= v@);
    let ghost before = views(done@).push(cur@);
    done.push(cur);
    assert(views(done@) =~= before);
    done
}

/// The parts of a text, with the separator between them.
pub open spec fn join(parts: Seq<Seq<char>>, sep: char) -> Seq<char>
    decreases parts.len(),
{
    if parts.len() == 0 {
        Seq::empty()
    } else if parts.len() == 1 {
        parts[0]
    } else {
        join(parts.drop_last(), sep).push(sep) + parts.last()
    }
}

/// Joining the parts of a text again gives the text, and no part holds the separator.
pub proof fn law_split_join(s: Seq<char>, sep: char)
    ensures
        join(split(s, sep), sep) == s,
        forall|i: int| 0 <= i < split(s, sep).len() ==> !(#[trigger] split(s, sep)[i]).contains(sep),
    decreases s.len(),
{
    if s.len() > 0 {
        let t = s.drop_last();
        let rest = split(t, sep);
        law_split_join(t, sep);
        lemma_split_nonempty(t, sep);
        let all = split(s, sep);
        if s.last() == sep {
            assert(all.drop_last() =~= rest);
            assert(join(all, sep) == join(rest, sep).push(sep) + all.last());
            assert(join(all, sep) =~= s);
            assert forall|i: int| 0 <= i < all.len() implies !(#[trigger] all[i]).contains(sep) by {
                if i < rest.len() {
                    assert(all[i] == rest[i]);
                }
            }
        } else {
            if rest.len() == 1 {
                assert(all.len() == 1);
                assert(all[0] =~= rest[0].push(s.last()));
            } else {
                assert(all.drop_last() =~= rest.drop_last());
                let head = join(rest.drop_last(), sep).push(sep);
                assert(join(rest, sep) == head + rest.last());
                assert(all.last() == rest.last().push(s.last()));
                assert(join(all, sep) == head + all.last());
                assert(head + all.last() =~= (head + rest.last()).push(s.last()));
            }
            assert(join(all, sep) =~= s);
            assert forall|i: int| 0 <= i < all.len() implies !(#[trigger] all[i]).contains(sep) by {
                if i == all.len() - 1 {
                    let p = rest.last();
                    assert(!rest[rest.len() - 1].contains(sep));
                    assert(all[i] == p.push(s.last()));
                    assert forall|k: int| 0 <= k < all[i].len() implies all[i][k] != sep by {
                        if k < p.len() {
                            assert(all[i][k] == p[k]);
                        }
                    }
                } else {
                    assert(all[i] == rest[i]);
                }
            }
        }
    }
}

proof fn lemma_split_more(t: Seq<char>, p: Seq<char>, sep: char)
    requires
        !p.contains(sep),
    ensures
        split(t.push(sep) + p, sep) == split(t, sep).push(p),
    decreases p.len(),
{
    let s = t.push(sep) + p;
    if p.len() == 0 {
        assert(p =~= Seq::<char>::empty());
        assert(s =~= t.push(sep));
        assert(s.drop_last() =~= t);
        assert(split(s, sep) =~= split(t, sep).push(p));
    } else {
        let q = p.drop_last();
        assert(!q.contains(sep)) by {
            assert forall|k: int| 0 <= k < q.len() implies q[k] != sep by {
                assert(p[k] == q[k]);
            }
        }
        lemma_split_more(t, q, sep);
        assert(s.drop_last() =~= t.push(sep) + q);
        assert(s.last() == p.last() && p[p.len() - 1] != sep);
        let rest = split(t, sep).push(q);
        assert(q.push(p.last()) =~= p);
        assert(split(s, sep) =~= split(t, sep).push(p));
    }
}

/// A text of two parts with a separator between them is split into the pieces of both.
pub proof fn law_split_joined(s: Seq<char>, t: Seq<char>, sep: char)
    ensures
        split(s.push(sep) + t, sep) == split(s, sep) + split(t, sep),
    decreases t.len(),
{
    let all = s.push(sep) + t;
    let front = split(s, sep);
    let back = split(t, sep);
    if t.len() == 0 {
        assert(t =~= Seq::<char>::empty());
        assert(all =~= s.push(sep));
        assert(all.drop_last() =~= s);
        assert(split(all, sep) =~= front + back);
    } else {
        law_split_joined(s, t.drop_last(), sep);
        lemma_split_nonempty(t.drop_last(), sep);
        assert(all.drop_last() =~= s.push(sep) + t.drop_last());
        assert(all.last() == t.last());
        assert(split(all, sep) =~= front + back);
    }
}

proof fn lemma_split_plain(p: Seq<char>, sep: char)
    requires
        !p.contains(sep),
    ensures
        split(p, sep) == seq![p],
    decreases p.len(),
{
    if p.len() == 0 {
        assert(p =~= Seq::<char>::empty());
    } else {
        let q = p.drop_last();
        assert(!q.contains(sep)) by {
            assert forall|k: int| 0 <= k < q.len() implies q[k] != sep by {
                assert(p[k] == q[k]);
            }
        }
        lemma_split_plain(q, sep);
        assert(p[p.len() - 1] != sep);
        assert(q.push(p.last()) =~= p);
        assert(split(p, sep) =~= seq![p]);
    }
}

/// Splitting joined parts gives the parts, where none of them holds the separator.
pub proof fn law_join_split(parts: Seq<Seq<char>>, sep: char)
    requires
        parts.len() > 0,
        forall|i: int| 0 <= i < parts.len() ==> !(#[trigger] parts[i]).contains(sep),
    ensures
        split(join(parts, sep), sep) == parts,
    decreases parts.len(),
{
    let p = parts.last();
    assert(!parts[parts.len() - 1].contains(sep));
    if parts.len() == 1 {
        lemma_split_plain(p, sep);
        assert(parts =~= seq![p]);
    } else {
        law_join_split(parts.drop_last(), sep);
        lemma_split_more(join(parts.drop_last(), sep), p, sep);
        assert(parts.drop_last().push(p) =~= parts);
    }
}

/// A line without the carriage return at its end.
pub open spec fn chomped(s: Seq<char>) -> Seq<char> {
    if s.len() > 0 && s.last() == '\r' {
        s.drop_last()
    } else {
        s
    }
}

/// The lines of a text: its parts between newlines, but for an empty last one, each
/// without a carriage return at its end. A last line that no newline ends keeps its
/// carriage return.
pub open spec fn lines(s: Seq<char>) -> Seq<Seq<char>> {
    let parts = split(s, '\n');
    let n = parts.len() as int;
    let kept = if parts.last().len() == 0 {
        n - 1
    } else {
        n
    };
    Seq::new(
        kept as nat,
        |i: int|
            if i < n - 1 {
                chomped(parts[i])
            } else {
                parts[i]
            },
    )
}

/// Splits a text into its lines.
pub fn lines_of(v: &Vec<char>) -> (r: Vec<Vec<char>>)
    ensures
        views(r@) == lines(v@),
{
    let parts: Vec<Vec<char>> = split_chars(v, '\n');
    let n: usize = parts.len();
    assert(views(parts@).last() == parts@[n - 1]@);
    let kept: usize = if parts[n - 1].len() == 0 {
        n - 1
    } else {
        n
    };
    let mut out: Vec<Vec<char>> = Vec::new();
    for i in 0..kept
        invariant
            n == parts@.len(),
            kept <= n,
            views(parts@) == split(v@, '\n'),
            out@.len() == i,
            forall|k: int|
                0 <= k < i ==> #[trigger] out@[k]@ == if k < n - 1 {
                    chomped(parts@[k]@)
                } else {
                    parts@[k]@
                },
    {
        let m: usize = parts[i].len();
        let line: Vec<char> = if i < n - 1 && m > 0 && parts[i][m - 1] == '\r' {
            let cut: Vec<char> = slice_of(&parts[i], 0, m - 1);
            assert(cut@ =~= parts@[i as int]@.drop_last());
            cut
        } else {
            let whole: Vec<char> = slice_of(&parts[i], 0, m);
            assert(whole@ =~= parts@[i as int]@);
            whole
        };
        out.push(line);
    }
    assert(views(out@) =~= lines(v@));
    out
}

// --- Numbers ---

/// The character of a digit.
pub open spec fn digit_char(d: int) -> char {
    (48 + d) as u8 as char
}

/// A number in decimal notation.
pub open spec fn decimal(n: nat) -> Seq<char>
    decreases n,
{
    if n < 10 {
        seq![digit_char(n as int)]
    } else {
        decimal(n / 10).push(digit_char((n % 10) as int))
    }
}

/// A number in decimal notation.
pub fn to_decimal(n: u64) -> (r: Vec<char>)
    ensures
        r@ == decimal(n as nat),
    decreases n,
{
    if n < 10 {
        let mut out: Vec<char> = Vec::new();
        out.push((48 + n as u8) as char);
        assert(out@ =~= decimal(n as nat));
        out
    } else {
        let mut out: Vec<char> = to_decimal(n / 10);
        out.push((48 + (n % 10) as u8) as char);
        out
    }
}

/// A large number in decimal notation.
pub fn to_wide_decimal(n: u128) -> (r: Vec<char>)
    ensures
        r@ == decimal(n as nat),
    decreases n,
{
    if n < 10 {
        let mut out: Vec<char> = Vec::new();
        out.push((48 + n as u8) as char);
        assert(out@ =~= decimal(n as nat));
        out
    } else {
        let mut out: Vec<char> = to_wide_decimal(n / 10);
        out.push((48 + (n % 10) as u8) as char);
        out
    }
}

pub open spec fn is_digit(c: char) -> bool {
    '0' <= c && c <= '9'
}

/// All characters are decimal digits.
pub open spec fn all_digits(s: Seq<char>) -> bool {
    forall|i: int| 0 <= i < s.len() ==> is_digit(#[trigger] s[i])
}

/// The value of a string of decimal digits.
pub open spec fn digits_value(s: Seq<char>) -> int
    decreases s.len(),
{
    if s.len() == 0 {
        0
    } else {
        digits_value(s.drop_last()) * 10 + (s.last() as u32 - 48)
    }
}

/// The digits of an unsigned number: what follows an optional plus sign.
pub open spec fn unsigned_digits(s: Seq<char>) -> Seq<char> {
    if s.len() > 1 && s[0] == '+' {
        s.subrange(1, s.len() as int)
    } else {
        s
    }
}

/// The number that a text denotes: an optional plus sign and at least one decimal digit,
/// with a value of at most `max`.
pub open spec fn unsigned_value(s: Seq<char>, max: int) -> Option<int> {
    let d = unsigned_digits(s);
    if d.len() > 0 && all_digits(d) && digits_value(d) <= max {
        Some(digits_value(d))
    } else {
        None
    }
}

/// A prefix of digits has no larger value.
proof fn lemma_digits_grow(s: Seq<char>, k: int)
    requires
        0 <= k <= s.len(),
        all_digits(s),
    ensures
        0 <= digits_value(s.take(k)) <= digits_value(s),
    decreases s.len(),
{
    if k < s.len() {
        lemma_digits_grow(s.drop_last(), k);
        assert(s.drop_last().take(k) =~= s.take(k));
    } else {
        assert(s.take(k) =~= s);
        if s.len() > 0 {
            lemma_digits_grow(s.drop_last(), s.len() - 1);
        }
    }
}

/// A number that a text denotes is not negative.
pub proof fn lemma_unsigned_value(s: Seq<char>, max: int)
    ensures
        unsigned_value(s, max) is Some ==> 0 <= unsigned_value(s, max)->0 <= max,
{
    let d = unsigned_digits(s);
    if all_digits(d) {
        lemma_digits_grow(d, 0);
    }
}

/// Parses an unsigned number that does not exceed `max`.
pub fn parse_unsigned(v: &Vec<char>, max: u64) -> (r: Option<u64>)
    ensures
        r is Some <==> unsigned_value(v@, max as int) is Some,
        r is Some ==> r->0 == unsigned_value(v@, max as int)->0,
{
    let n: usize = v.len();
    let from: usize = if n > 1 && v[0] == '+' {
        1
    } else {
        0
    };
    let ghost d = unsigned_digits(v@);
    assert(d =~= v@.subrange(from as int, n as int));
    if from == n {
        return None;
    }
    let mut i: usize = from;
    let mut val: u64 = 0;
    assert(d.take(0) =~= Seq::<char>::empty());
    while i < n
        invariant
            n == v@.len(),
            from <= i <= n,
            d == v@.subrange(from as int, n as int),
            forall|k: int| 0 <= k < i - from ==> is_digit(#[trigger] d[k]),
            val == digits_value(d.take(i - from)),
            val <= max,
            d == unsigned_digits(v@),
        decreases n - i,
    {
        let c: char = v[i];
        assert(c == d[i - from]);
        if !('0' <= c && c <= '9') {
            return None;
        }
        let digit: u64 = (c as u32 - 48) as u64;
        assert(d.take(i - from + 1).drop_last() =~= d.take(i - from));
        assert(d.take(i - from + 1).last() == c);
        let wide: u128 = val as u128 * 10 + digit as u128;
        if wide > max as u128 {
            proof {
                if all_digits(d) {
                    lemma_digits_grow(d, i - from + 1);
                }
            }
            return None;
        }
        val = wide as u64;
        i = i + 1;
    }
    assert(d.take(n - from) =~= d);
    Some(val)
}

/// Writing a number in decimal and reading it again gives the number.
pub proof fn law_decimal_round_trip(n: nat)
    ensures
        unsigned_value(decimal(n), n as int) == Some(n as int),
        decimal(n).len() > 0,
{
    lemma_decimal_digits(n);
    let s = decimal(n);
    assert(s[0] != '+') by {
        assert(is_digit(s[0]));
    }
    assert(unsigned_digits(s) == s);
}

pub proof fn lemma_decimal_digits(n: nat)
    ensures
        decimal(n).len() > 0,
        all_digits(decimal(n)),
        digits_value(decimal(n)) == n,
    decreases n,
{
    if n < 10 {
        let s = decimal(n);
        assert(s.drop_last() =~= Seq::<char>::empty());
        assert(digits_value(s.drop_last()) == 0);
        assert(s.last() == digit_char(n as int));
    } else {
        lemma_decimal_digits(n / 10);
        let s = decimal(n);
        assert(s.drop_last() =~= decimal(n / 10));
        assert(s.last() == digit_char((n % 10) as int));
        assert forall|i: int| 0 <= i < s.len() implies is_digit(#[trigger] s[i]) by {
            if i < s.len() - 1 {
                assert(s[i] == decimal(n / 10)[i]);
            }
        }
    }
}

/// A number in decimal notation with at least `width` digits.
pub open spec fn zero_padded(n: nat, width: nat) -> Seq<char> {
    let d = decimal(n);
    if d.len() < width {
        Seq::new((width - d.len()) as nat, |i: int| '0') + d
    } else {
        d
    }
}

/// A number in decimal notation with at least `width` digits.
pub fn to_padded(n: u64, width: usize) -> (r: Vec<char>)
    ensures
        r@ == zero_padded(n as nat, width as nat),
{
    let d: Vec<char> = to_decimal(n);
    let mut out: Vec<char> = Vec::new();
    if d.len() < width {
        let zeros: usize = width - d.len();
        for i in 0..zeros
            invariant
                out@ == Seq::new(i as nat, |k: int| '0'),
        {
            out.push('0');
            assert(out@ =~= Seq::new((i + 1) as nat, |k: int| '0'));
        }
    }
    let ghost front = out@;
    let m: usize = d.len();
    for i in 0..m
        invariant
            m == d@.len(),
            out@ == front + d@.take(i as int),
    {
        out.push(d[i]);
        assert(out@ =~= front + d@.take(i + 1));
    }
    assert(d@.take(m as int) =~= d@);
    assert(out@ =~= zero_padded(n as nat, width as nat));
    out
}

/// A text without white space at its ends is trimmed already.
pub proof fn lemma_trim_plain(s: Seq<char>)
    requires
        s.len() > 0,
        !is_space(s[0]),
        !is_space(s.last()),
    ensures
        trim(s) == s,
{
}

// --- Hexadecimal ---

/// A hexadecimal digit.
pub open spec fn hex_digit(d: int, upper: bool) -> char {
    if d < 10 {
        (48 + d) as u8 as char
    } else if upper {
        (55 + d) as u8 as char
    } else {
        (87 + d) as u8 as char
    }
}

/// A number in hexadecimal notation with at least `width` digits.
pub open spec fn hex(n: int, width: int, upper: bool) -> Seq<char>
    decreases n, width,
{
    if n <= 0 && width <= 0 {
        Seq::empty()
    } else if n <= 0 {
        hex(n, width - 1, upper).push('0')
    } else {
        hex(n / 16, width - 1, upper).push(hex_digit(n % 16, upper))
    }
}

fn push_hex(n: u64, width: u32, upper: bool, out: &mut Vec<char>)
    ensures
        final(out)@ == old(out)@ + hex(n as int, width as int, upper),
    decreases n, width,
{
    if n == 0 && width == 0 {
        assert(out@ =~= out@ + hex(0, 0, upper));
        return ;
    }
    let narrower: u32 = if width > 0 {
        width - 1
    } else {
        0
    };
    let ghost before = out@;
    push_hex(n / 16, narrower, upper, out);
    let d: u8 = (n % 16) as u8;
    let c: char = if d < 10 {
        (48 + d) as char
    } else if upper {
        (55 + d) as char
    } else {
        (87 + d) as char
    };
    out.push(c);
    proof {
        lemma_hex_width(n as int / 16, width - 1, narrower as int, upper);
        if n == 0 {
            assert(hex_digit(0, upper) == '0');
        }
        assert(out@ =~= before + hex(n as int, width as int, upper));
    }
}

/// Widths below zero mean the same as zero.
proof fn lemma_hex_width(n: int, a: int, b: int, upper: bool)
    requires
        0 <= n,
        a == b || (a <= 0 && b <= 0),
    ensures
        hex(n, a, upper) == hex(n, b, upper),
    decreases n,
{
    if a != b && n > 0 {
        lemma_hex_width(n / 16, a - 1, b - 1, upper);
    }
}

/// A number in hexadecimal notation with at least `width` digits.
pub fn to_hex(n: u64, width: u32, upper: bool) -> (r: Vec<char>)
    ensures
        r@ == hex(n as int, width as int, upper),
{
    let mut out: Vec<char> = Vec::new();
    push_hex(n, width, upper, &mut out);
    assert(out@ =~= hex(n as int, width as int, upper));
    out
}

// --- Laws of the parts ---

/// The capital letters of ASCII move by 32; all else stays.
pub proof fn law_ascii_lower(c: char)
    ensures
        65 <= (c as u32) <= 90 ==> ascii_lower(c) as u32 == c as u32 + 32,
        !(65 <= (c as u32) <= 90) ==> ascii_lower(c) == c,
{
}

proof fn lemma_trim_start_cut(s: Seq<char>) -> (a: int)
    ensures
        0 <= a <= s.len(),
        trim_start(s) == s.skip(a),
        forall|i: int| 0 <= i < a ==> is_space(#[trigger] s[i]),
    decreases s.len(),
{
    if s.len() > 0 && is_space(s[0]) {
        let rest = s.subrange(1, s.len() as int);
        let b = lemma_trim_start_cut(rest);
        assert(rest.skip(b) =~= s.skip(b + 1));
        assert forall|i: int| 0 <= i < b + 1 implies is_space(#[trigger] s[i]) by {
            if i > 0 {
                assert(rest[i - 1] == s[i]);
            }
        }
        b + 1
    } else {
        assert(s.skip(0) =~= s);
        0
    }
}

proof fn lemma_trim_end_cut(s: Seq<char>) -> (b: int)
    ensures
        0 <= b <= s.len(),
        trim_end(s) == s.take(b),
        forall|i: int| b <= i < s.len() ==> is_space(#[trigger] s[i]),
    decreases s.len(),
{
    if s.len() > 0 && is_space(s.last()) {
        let rest = s.drop_last();
        let b = lemma_trim_end_cut(rest);
        assert(rest.take(b) =~= s.take(b));
        assert forall|i: int| b <= i < s.len() implies is_space(#[trigger] s[i]) by {
            if i < s.len() - 1 {
                assert(rest[i] == s[i]);
            }
        }
        b
    } else {
        assert(s.take(s.len() as int) =~= s);
        s.len() as int
    }
}

/// A trimmed text is a part of the text with nothing but white space before and behind it, and
/// what does not begin or end with white space is all kept.
pub proof fn law_trimmed(s: Seq<char>) -> (cut: (int, int))
    ensures
        0 <= cut.0 <= cut.1 <= s.len(),
        trim(s) == s.subrange(cut.0, cut.1),
        forall|i: int|
            (0 <= i < cut.0 || cut.1 <= i < s.len()) ==> is_space(#[trigger] s[i]),
{
    let a = lemma_trim_start_cut(s);
    let t = s.skip(a);
    let b = lemma_trim_end_cut(t);
    assert(t.take(b) =~= s.subrange(a, a + b));
    assert forall|i: int| (0 <= i < a || a + b <= i < s.len()) implies is_space(
        #[trigger] s[i],
    ) by {
        if i >= a {
            assert(t[i - a] == s[i]);
        }
    }
    (a, a + b)
}

/// The white space is what Unicode lists: the controls from tab to carriage return, the next
/// line, and the spaces and separators. No letter, digit or mark of ASCII is white space.
pub proof fn law_spaces(c: char)
    ensures
        (c as u32) < 128 ==> (is_space(c) <==> c == ' ' || c == '\t' || c == '\n' || c == '\r' || c
            as u32 == 11 || c as u32 == 12),
        (c as u32) >= 128 ==> (is_space(c) <==> c == '\u{85}' || c == '\u{a0}' || c == '\u{1680}' || (
        '\u{2000}' <= c && c <= '\u{200a}') || c == '\u{2028}' || c == '\u{2029}' || c == '\u{202f}'
            || c == '\u{205f}' || c == '\u{3000}'),
{
}

/// A text that holds no newline is one line, but for the empty text, which has none. A text in
/// front of a newline is a line before the lines of what follows; a carriage return right
/// before the newline is not a part of it.
pub proof fn law_lines(s: Seq<char>, rest: Seq<char>)
    requires
        !s.contains('\n'),
    ensures
        lines(Seq::empty()).len() == 0,
        s.len() > 0 ==> lines(s) == seq![s],
        lines(s.push('\n') + rest) == seq![
            if s.len() > 0 && s[s.len() - 1] == '\r' {
                s.take(s.len() - 1)
            } else {
                s
            },
        ] + lines(rest),
{
    lemma_split_plain(s, '\n');
    lemma_split_plain(Seq::<char>::empty(), '\n');
    law_split_joined(s, rest, '\n');
    lemma_split_nonempty(rest, '\n');
    let all = split(s.push('\n') + rest, '\n');
    let tail = split(rest, '\n');
    assert(all == seq![s] + tail);
    assert(all.last() == tail.last());
    if s.len() > 0 {
        assert(split(s, '\n').last() == s);
        assert(lines(s) =~= seq![s]);
        assert(s.drop_last() =~= s.take(s.len() - 1));
    }
    let head = if s.len() > 0 && s[s.len() - 1] == '\r' {
        s.take(s.len() - 1)
    } else {
        s
    };
    assert(chomped(s) == head);
    let got = lines(s.push('\n') + rest);
    assert forall|i: int| 0 <= i < got.len() implies got[i] == (seq![head] + lines(rest))[i] by {
        if i == 0 {
            assert(all[0] == s);
        } else {
            assert(all[i] == tail[i - 1]);
        }
    }
    assert(got =~= seq![head] + lines(rest));
}

/// The last digit of a number in decimal notation is its remainder by ten, and what is before
/// it is the number of the tens, without zeros in front.
pub proof fn law_decimal(n: nat)
    ensures
        decimal(n).last() as u32 == 48 + n % 10,
        n < 10 ==> decimal(n).len() == 1,
        n >= 10 ==> decimal(n).drop_last() == decimal(n / 10),
        n > 0 ==> decimal(n)[0] != '0',
    decreases n,
{
    if n >= 10 {
        law_decimal(n / 10);
        lemma_decimal_digits(n / 10);
        assert(decimal(n).drop_last() =~= decimal(n / 10));
    }
}

/// The digits that a number is read from are those of the number in decimal notation, with
/// zeros in front where there are more. A plus sign in front does not count.
pub proof fn law_digits_read(s: Seq<char>, max: int)
    ensures
        unsigned_value(s, max) is Some ==> unsigned_digits(s) == zero_padded(
            unsigned_value(s, max)->0 as nat,
            unsigned_digits(s).len(),
        ),
        s.len() > 0 && s[0] != '+' ==> unsigned_value(seq!['+'] + s, max) == unsigned_value(s, max),
        s.len() == 0 ==> unsigned_value(s, max) is None,
        unsigned_value(s, max) is Some ==> unsigned_value(s, unsigned_value(s, max)->0)
            == unsigned_value(s, max) && unsigned_value(s, unsigned_value(s, max)->0 - 1) is None,
{
    if unsigned_value(s, max) is Some {
        lemma_padded_value(unsigned_digits(s));
    }
    if s.len() > 0 && s[0] != '+' {
        let t = seq!['+'] + s;
        assert(t.subrange(1, t.len() as int) =~= s);
    }
}

proof fn lemma_padded_value(d: Seq<char>)
    requires
        d.len() > 0,
        all_digits(d),
    ensures
        digits_value(d) >= 0,
        d == zero_padded(digits_value(d) as nat, d.len()),
    decreases d.len(),
{
    let c = d.last();
    assert(is_digit(d[d.len() - 1]));
    let k = c as u32 - 48;
    let front = d.drop_last();
    assert(digit_char(k) == c);
    if front.len() == 0 {
        assert(digits_value(front) == 0);
        assert(digits_value(d) == k);
        assert(decimal(k as nat) =~= d);
        assert(zero_padded(k as nat, 1) =~= d);
    } else {
        assert forall|i: int| 0 <= i < front.len() implies is_digit(#[trigger] front[i]) by {
            assert(front[i] == d[i]);
        }
        lemma_padded_value(front);
        let v = digits_value(front) as nat;
        let n = digits_value(d) as nat;
        assert(n == v * 10 + k);
        let w = front.len();
        lemma_decimal_digits(v);
        lemma_decimal_digits(n);
        if v == 0 {
            assert(decimal(0nat) =~= seq!['0']);
            assert(decimal(n) =~= seq![c]);
            assert(front =~= Seq::new(w, |i: int| '0'));
            assert(zero_padded(n, d.len()) =~= d);
        } else {
            assert(n >= 10);
            assert(n / 10 == v);
            assert(n % 10 == k);
            assert(decimal(n) == decimal(v).push(c));
            assert(decimal(v).len() <= w) by {
                assert(zero_padded(v, w).len() == w);
            }
            assert(zero_padded(n, d.len()) =~= zero_padded(v, w).push(c));
            assert(front.push(c) =~= d);
        }
    }
}

/// A padded number is its digits with zeros in front, as many as are missing to the width.
pub proof fn law_padded(n: nat, width: nat)
    ensures
        zero_padded(n, width).len() >= width,
        decimal(n).len() >= width ==> zero_padded(n, width) == decimal(n),
        decimal(n).len() < width ==> zero_padded(n, width).len() == width,
        zero_padded(n, width).skip(zero_padded(n, width).len() - decimal(n).len()) == decimal(n),
        forall|i: int|
            0 <= i < zero_padded(n, width).len() - decimal(n).len() ==> #[trigger] zero_padded(
                n,
                width,
            )[i] == '0',
{
    assert(zero_padded(n, width).skip(zero_padded(n, width).len() - decimal(n).len())
        =~= decimal(n));
}

/// The last hexadecimal digit of a number is its remainder by sixteen: a digit, or a letter
/// from A on in the case that was asked for. What is before it is the number of the sixteens,
/// one digit shorter. Nothing is left of zero once the width is met.
pub proof fn law_hex(n: int, width: int, upper: bool)
    requires
        n >= 0,
    ensures
        n == 0 && width <= 0 ==> hex(n, width, upper).len() == 0,
        n > 0 || width > 0 ==> hex(n, width, upper).len() > 0 && hex(n, width, upper).drop_last()
            == hex(n / 16, width - 1, upper) && ({
            let c = hex(n, width, upper).last() as u32;
            let d = n % 16;
            &&& d < 10 ==> c == 48 + d
            &&& d >= 10 && upper ==> c == 65 + (d - 10)
            &&& d >= 10 && !upper ==> c == 97 + (d - 10)
        }),
{
    if n > 0 || width > 0 {
        assert(hex(n, width, upper).drop_last() =~= hex(n / 16, width - 1, upper));
    }
}


/// A text holds what stands between any two parts of it, at the place where the first part
/// ends. It begins with what stands first and ends with what stands last.
pub proof fn law_occurs(before: Seq<char>, needle: Seq<char>, after: Seq<char>)
    ensures
        occurs_at(before + needle + after, needle, before.len() as int),
        contains(before + needle + after, needle),
        starts_with(needle + after, needle),
        ends_with(before + needle, needle),
{
    let hay = before + needle + after;
    let n = before.len() as int;
    assert(hay.subrange(n, n + needle.len()) =~= needle);
    assert((needle + after).subrange(0, needle.len() as int) =~= needle);
    let end = before + needle;
    assert(end.subrange(end.len() - needle.len(), end.len() as int) =~= needle);
}

/// Where a text is found, the text around it makes up the whole.
pub proof fn law_found(hay: Seq<char>, needle: Seq<char>, i: int)
    requires
        occurs_at(hay, needle, i),
    ensures
        0 <= i <= hay.len() - needle.len(),
        hay == hay.take(i) + needle + hay.skip(i + needle.len()),
{
    assert(hay =~= hay.take(i) + hay.subrange(i, i + needle.len()) + hay.skip(i + needle.len()));
}


} // verus!
