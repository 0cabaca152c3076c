//! Letters that a font draws as one glyph.

use vstd::prelude::*;

verus! {

/// The letters that a character stands for.
pub open spec fn letters_of(c: char) -> Seq<char> {
    if c == '\u{FB00}' {
        seq!['f', 'f']
    } else if c == '\u{FB01}' {
        seq!['f', 'i']
    } else if c == '\u{FB02}' {
        seq!['f', 'l']
    } else if c == '\u{FB03}' {
        seq!['f', 'f', 'i']
    } else if c == '\u{FB04}' {
        seq!['f', 'f', 'l']
    } else {
        seq![c]
    }
}

/// The letters of a ligature that the font has stand at `i`.
pub open spec fn joins_at(s: Seq<char>, i: int, lig: char, allowed: Seq<char>) -> bool {
    let n = letters_of(lig).len();
    allowed.contains(lig) && i + n <= s.len() && s.subrange(i, i + n) == letters_of(lig)
}

/// The character that the letters at `i` are drawn as: the longest ligature that the font has,
/// and else the letter itself.
pub open spec fn drawn_at(s: Seq<char>, i: int, allowed: Seq<char>) -> char {
    if joins_at(s, i, '\u{FB03}', allowed) {
        '\u{FB03}'
    } else if joins_at(s, i, '\u{FB04}', allowed) {
        '\u{FB04}'
    } else if joins_at(s, i, '\u{FB00}', allowed) {
        '\u{FB00}'
    } else if joins_at(s, i, '\u{FB01}', allowed) {
        '\u{FB01}'
    } else if joins_at(s, i, '\u{FB02}', allowed) {
        '\u{FB02}'
    } else {
        s[i]
    }
}

/// How many letters the character at `i` takes up.
pub open spec fn taken_at(s: Seq<char>, i: int, allowed: Seq<char>) -> int {
    let c = drawn_at(s, i, allowed);
    if c == s[i] {
        1
    } else {
        letters_of(c).len() as int
    }
}

/// The characters that the letters from `i` on are drawn as.
pub open spec fn collapsed(s: Seq<char>, i: int, allowed: Seq<char>) -> Seq<char>
    decreases s.len() - i,
{
    if i < 0 || i >= s.len() {
        Seq::empty()
    } else {
        seq![drawn_at(s, i, allowed)] + collapsed(s, i + taken_at(s, i, allowed), allowed)
    }
}

fn has_char(v: &Vec<char>, c: char) -> (r: bool)
    ensures
        r == v@.contains(c),
{
    let n: usize = v.len();
    for i in 0..n
        invariant
            n == v@.len(),
            forall|k: int| 0 <= k < i ==> #[trigger] v@[k] != c,
    {
        if v[i] == c {
            return true;
        }
    }
    false
}

fn pair_joins(s: &Vec<char>, i: usize, last: char, lig: char, allowed: &Vec<char>) -> (r: bool)
    requires
        i < s@.len(),
        letters_of(lig) == seq!['f', last],
    ensures
        r == joins_at(s@, i as int, lig, allowed@),
{
    let r: bool = s.len() - i >= 2 && s[i] == 'f' && s[i + 1] == last && has_char(allowed, lig);
    proof {
        if s@.len() - i >= 2 {
            let part = s@.subrange(i as int, i + 2);
            assert(part[0] == s@[i as int] && part[1] == s@[i + 1]);
            if s@[i as int] == 'f' && s@[i + 1] == last {
                assert(part =~= letters_of(lig));
            }
        }
    }
    r
}

fn triple_joins(s: &Vec<char>, i: usize, last: char, lig: char, allowed: &Vec<char>) -> (r: bool)
    requires
        i < s@.len(),
        letters_of(lig) == seq!['f', 'f', last],
    ensures
        r == joins_at(s@, i as int, lig, allowed@),
{
    let r: bool = s.len() - i >= 3 && s[i] == 'f' && s[i + 1] == 'f' && s[i + 2] == last
        && has_char(allowed, lig);
    proof {
        if s@.len() - i >= 3 {
            let part = s@.subrange(i as int, i + 3);
            assert(part[0] == s@[i as int] && part[1] == s@[i + 1] && part[2] == s@[i + 2]);
            if s@[i as int] == 'f' && s@[i + 1] == 'f' && s@[i + 2] == last {
                assert(part =~= letters_of(lig));
            }
        }
    }
    r
}

/// The characters that a word is drawn as in a font with these ligatures.
pub fn collapse_ligatures(chars: &Vec<char>, allowed: &Vec<char>) -> (out: Vec<char>)
    ensures
        out@ == collapsed(chars@, 0, allowed@),
        out@.len() <= chars@.len(),
        chars@.len() > 0 ==> out@.len() > 0,
{
    let n: usize = chars.len();
    let mut out: Vec<char> = Vec::new();
    let mut i: usize = 0;
    while i < n
        invariant
            i <= n,
            n == chars@.len(),
            out@.len() <= i,
            i > 0 ==> out@.len() > 0,
            out@ + collapsed(chars@, i as int, allowed@) == collapsed(chars@, 0, allowed@),
        decreases n - i,
    {
        let ghost before = out@;
        let ghost c = drawn_at(chars@, i as int, allowed@);
        let ghost rest = collapsed(chars@, i + taken_at(chars@, i as int, allowed@), allowed@);
        let (drawn, step): (char, usize) = if triple_joins(chars, i, 'i', '\u{FB03}', allowed) {
            ('\u{FB03}', 3)
        } else if triple_joins(chars, i, 'l', '\u{FB04}', allowed) {
            ('\u{FB04}', 3)
        } else if pair_joins(chars, i, 'f', '\u{FB00}', allowed) {
            ('\u{FB00}', 2)
        } else if pair_joins(chars, i, 'i', '\u{FB01}', allowed) {
            ('\u{FB01}', 2)
        } else if pair_joins(chars, i, 'l', '\u{FB02}', allowed) {
            ('\u{FB02}', 2)
        } else {
            (chars[i], 1)
        };
        proof {
            assert(drawn == c);
            if step > 1 {
                assert(chars@.subrange(i as int, i + step)[0] == chars@[i as int]);
                assert(chars@[i as int] == 'f');
            }
        }
        out.push(drawn);
        i = i + step;
        assert(out@ + rest =~= before + (seq![c] + rest));
    }
    assert(out@ + collapsed(chars@, n as int, allowed@) =~= out@);
    out
}

/// The letters of a text, in which no ligature is left.
pub open spec fn spelled(s: Seq<char>) -> Seq<char>
    decreases s.len(),
{
    if s.len() == 0 {
        Seq::empty()
    } else {
        letters_of(s[0]) + spelled(s.drop_first())
    }
}

/// A character that stands for several letters.
pub open spec fn is_joined(c: char) -> bool {
    letters_of(c).len() > 1
}

proof fn lemma_spelling(s: Seq<char>, i: int, allowed: Seq<char>)
    requires
        0 <= i <= s.len(),
        forall|k: int| 0 <= k < s.len() ==> !is_joined(#[trigger] s[k]),
    ensures
        spelled(collapsed(s, i, allowed)) == s.skip(i),
    decreases s.len() - i,
{
    if i < s.len() {
        let c = drawn_at(s, i, allowed);
        let step = taken_at(s, i, allowed);
        let rest = collapsed(s, i + step, allowed);
        assert(!is_joined(s[i]));
        lemma_spelling(s, i + step, allowed);
        let all = seq![c] + rest;
        assert(all.drop_first() =~= rest);
        assert(all[0] == c);
        assert(letters_of(c) =~= s.subrange(i, i + step));
        assert(s.subrange(i, i + step) + s.skip(i + step) =~= s.skip(i));
    } else {
        assert(s.skip(i) =~= Seq::<char>::empty());
    }
}

/// Drawing letters as ligatures keeps the letters: spelled out again, the text is the one that
/// was drawn.
pub proof fn law_spelling_kept(s: Seq<char>, allowed: Seq<char>)
    requires
        forall|k: int| 0 <= k < s.len() ==> !is_joined(#[trigger] s[k]),
    ensures
        spelled(collapsed(s, 0, allowed)) == s,
{
    lemma_spelling(s, 0, allowed);
    assert(s.skip(0) =~= s);
}

proof fn lemma_plain(s: Seq<char>, i: int, allowed: Seq<char>)
    requires
        0 <= i <= s.len(),
        forall|k: int| 0 <= k < allowed.len() ==> !is_joined(#[trigger] allowed[k]),
    ensures
        collapsed(s, i, allowed) == s.skip(i),
    decreases s.len() - i,
{
    if i < s.len() {
        assert forall|c: char| is_joined(c) implies !allowed.contains(c) by {}
        assert(is_joined('\u{FB00}') && is_joined('\u{FB01}') && is_joined('\u{FB02}')
            && is_joined('\u{FB03}') && is_joined('\u{FB04}'));
        lemma_plain(s, i + 1, allowed);
        assert(seq![s[i]] + s.skip(i + 1) =~= s.skip(i));
    } else {
        assert(s.skip(i) =~= Seq::<char>::empty());
    }
}

/// A font without ligatures draws a text letter by letter.
pub proof fn law_no_ligatures(s: Seq<char>, allowed: Seq<char>)
    requires
        forall|k: int| 0 <= k < allowed.len() ==> !is_joined(#[trigger] allowed[k]),
    ensures
        collapsed(s, 0, allowed) == s,
{
    lemma_plain(s, 0, allowed);
    assert(s.skip(0) =~= s);
}

/// The five ligatures of the letter f, and no other character, stand for several letters.
pub proof fn law_letters(c: char)
    ensures
        spelled(seq![c]) == letters_of(c),
        c as u32 == 0xfb00 <==> letters_of(c) == seq!['f', 'f'],
        c as u32 == 0xfb01 <==> letters_of(c) == seq!['f', 'i'],
        c as u32 == 0xfb02 <==> letters_of(c) == seq!['f', 'l'],
        c as u32 == 0xfb03 <==> letters_of(c) == seq!['f', 'f', 'i'],
        c as u32 == 0xfb04 <==> letters_of(c) == seq!['f', 'f', 'l'],
        is_joined(c) <==> 0xfb00 <= (c as u32) <= 0xfb04,
        !is_joined(c) ==> letters_of(c) == seq![c],
{
    assert(seq![c].drop_first() =~= Seq::<char>::empty());
    reveal_with_fuel(spelled, 2);
    assert(letters_of(c)[0] == 'f' || letters_of(c)[0] == c);
    assert(seq!['f', 'f'][1] == 'f');
    assert(seq!['f', 'i'][1] == 'i');
    assert(seq!['f', 'l'][1] == 'l');
    assert(seq!['f', 'f', 'i'].len() == 3);
    assert(seq!['f', 'f', 'l'].len() == 3);
    assert(seq!['f', 'f', 'i'][2] == 'i');
    assert(seq!['f', 'f', 'l'][2] == 'l');
    assert(seq![c].len() == 1);
}

/// Where the letters of a ligature that the font has begin, a ligature is drawn that the font
/// has, whose letters stand there, and that is at least as long. Where none begins the letter
/// itself is drawn, and the drawing goes on behind what was drawn.
pub proof fn law_longest(s: Seq<char>, i: int, allowed: Seq<char>, lig: char)
    requires
        0 <= i < s.len(),
        is_joined(lig),
    ensures
        ({
            let c = drawn_at(s, i, allowed);
            let n = letters_of(lig).len();
            let fits = allowed.contains(lig) && i + n <= s.len() && forall|k: int|
                0 <= k < n ==> s[i + k] == #[trigger] letters_of(lig)[k];
            &&& fits ==> is_joined(c) && letters_of(c).len() >= n
            &&& is_joined(c) && !is_joined(s[i]) ==> allowed.contains(c) && i + letters_of(c).len()
                <= s.len() && forall|k: int|
                0 <= k < letters_of(c).len() ==> s[i + k] == #[trigger] letters_of(c)[k]
            &&& !is_joined(c) ==> c == s[i]
            &&& !is_joined(s[i]) ==> collapsed(s, i, allowed) == seq![c] + collapsed(
                s,
                i + letters_of(c).len(),
                allowed,
            )
        }),
{
    let c = drawn_at(s, i, allowed);
    let n = letters_of(lig).len();
    let fits = allowed.contains(lig) && i + n <= s.len() && forall|k: int|
        0 <= k < n ==> s[i + k] == #[trigger] letters_of(lig)[k];
    if fits {
        assert(s.subrange(i, i + n) =~= letters_of(lig));
        assert(joins_at(s, i, lig, allowed));
    }
    if c != s[i] {
        assert(joins_at(s, i, c, allowed));
        let m = letters_of(c).len();
        let part = s.subrange(i, i + m);
        assert forall|k: int| 0 <= k < m implies s[i + k] == #[trigger] letters_of(c)[k] by {
            assert(part[k] == s[i + k]);
        }
    }
}


} // verus!
