//! Birth years of font families, so that no variant of a font is made for a time before
//! the font existed.
//!
//! Families are matched by substring, without regard to case, and the longest key wins:
//! "times new roman" beats "times". Keys are searched in the family and in the PostScript
//! name. Free fonts that are metric-compatible with a historical font count as that font.

use vstd::prelude::*;
use vstd::utf8::is_ascii_chars;
use crate::text::{
    chars_of, contains, copy_of, has_part, in_lower_case, law_lower_case_settled, occurs_at,
    same_text, to_lowercase,
};

verus! {

/// Free fonts and the historical families they stand in for: the first entry of a pair is
/// searched for in a family name, the second is the family.
pub open spec fn clone_map() -> Seq<(Seq<char>, Seq<char>)> {
    seq![
        ("carlito"@, "calibri"@),
        ("caladea"@, "cambria"@),
        ("liberation sans"@, "arial"@),
        ("liberation serif"@, "times new roman"@),
        ("liberation mono"@, "courier new"@),
        ("arimo"@, "arial"@),
        ("tinos"@, "times new roman"@),
        ("cousine"@, "courier new"@),
        ("nimbus sans"@, "helvetica"@),
        ("nimbus roman"@, "times new roman"@),
        ("nimbus mono"@, "courier"@),
        ("tex gyre heros"@, "helvetica"@),
        ("tex gyre termes"@, "times new roman"@),
        ("tex gyre cursor"@, "courier"@),
        ("tex gyre pagella"@, "palatino"@),
        ("tex gyre bonum"@, "bookman"@),
        ("tex gyre schola"@, "century schoolbook"@),
    ]
}

/// Parts of family names, and the year in which the family appeared.
pub open spec fn birth_table() -> Seq<(Seq<char>, u16)> {
    seq![
        ("garamond"@, 1530u16),
        ("caslon"@, 1722u16),
        ("baskerville"@, 1757u16),
        ("bodoni"@, 1798u16),
        ("century schoolbook"@, 1919u16),
        ("futura"@, 1927u16),
        ("times new roman"@, 1931u16),
        ("times-roman"@, 1931u16),
        ("times"@, 1931u16),
        ("palatino"@, 1948u16),
        ("courier"@, 1955u16),
        ("courier new"@, 1955u16),
        ("helvetica"@, 1957u16),
        ("univers"@, 1957u16),
        ("optima"@, 1958u16),
        ("nimbus sans"@, 1984u16),
        ("nimbus roman"@, 1982u16),
        ("nimbus mono"@, 1984u16),
        ("itc zapf dingbats"@, 1978u16),
        ("arial"@, 1982u16),
        ("arial narrow"@, 1982u16),
        ("symbol"@, 1984u16),
        ("wingdings"@, 1990u16),
        ("comic sans ms"@, 1994u16),
        ("comic sans"@, 1994u16),
        ("comic"@, 1994u16),
        ("georgia"@, 1993u16),
        ("trebuchet ms"@, 1996u16),
        ("trebuchet"@, 1996u16),
        ("verdana"@, 1996u16),
        ("tahoma"@, 1994u16),
        ("andale mono"@, 1995u16),
        ("impact"@, 1965u16),
        ("carlito"@, 2013u16),
        ("caladea"@, 2013u16),
        ("liberation sans"@, 2007u16),
        ("liberation serif"@, 2007u16),
        ("liberation mono"@, 2007u16),
        ("dejavu sans"@, 2004u16),
        ("dejavu serif"@, 2004u16),
        ("dejavu"@, 2004u16),
        ("segoe ui"@, 2004u16),
        ("segoe"@, 2004u16),
        ("cambria"@, 2004u16),
        ("calibri"@, 2007u16),
        ("candara"@, 2006u16),
        ("corbel"@, 2005u16),
        ("consolas"@, 2005u16),
        ("constantia"@, 2005u16),
        ("aptos"@, 2023u16),
        ("tex gyre termes"@, 2006u16),
        ("tex gyre heros"@, 2006u16),
        ("tex gyre pagella"@, 2006u16),
        ("tex gyre bonum"@, 2006u16),
        ("tex gyre schola"@, 2006u16),
        ("tex gyre cursor"@, 2006u16),
        ("tex gyre adventor"@, 2006u16),
        ("texgyretermes"@, 2006u16),
        ("texgyreheros"@, 2006u16),
        ("source sans pro"@, 2012u16),
        ("source sans 3"@, 2012u16),
        ("source sans"@, 2012u16),
        ("source serif pro"@, 2014u16),
        ("source serif 4"@, 2014u16),
        ("source serif"@, 2014u16),
        ("source code pro"@, 2012u16),
        ("source han sans"@, 2014u16),
        ("noto sans"@, 2013u16),
        ("noto serif"@, 2013u16),
        ("noto mono"@, 2013u16),
        ("noto"@, 2013u16),
        ("ibm plex sans"@, 2017u16),
        ("ibm plex serif"@, 2017u16),
        ("ibm plex mono"@, 2017u16),
        ("ibm plex"@, 2017u16),
        ("inter"@, 2017u16),
        ("roboto"@, 2011u16),
        ("open sans"@, 2010u16),
        ("lato"@, 2010u16),
        ("jost"@, 2018u16),
        ("fira sans"@, 2013u16),
        ("fira code"@, 2015u16),
        ("ubuntu"@, 2010u16),
        ("merriweather"@, 2011u16),
        ("playfair display"@, 2011u16),
        ("eb garamond"@, 2011u16),
        ("libre baskerville"@, 2012u16),
        ("libre bodoni"@, 2023u16),
        ("libre caslon"@, 2014u16),
        ("courier prime"@, 2013u16),
        ("special elite"@, 2010u16),
        ("cutive mono"@, 2011u16),
        ("ogcourier"@, 2000u16),
        ("letter gothic"@, 1956u16),
        ("prestige elite"@, 1953u16),
        ("consola"@, 2005u16),
    ]
}

fn clone_entries() -> (r: Vec<(&'static str, &'static str)>)
    ensures
        r@.len() == clone_map().len(),
        forall|i: int|
            0 <= i < r@.len() ==> (#[trigger] r@[i]).0@ == clone_map()[i].0 && r@[i].1@
                == clone_map()[i].1,
{
    vec![
        ("carlito", "calibri"),
        ("caladea", "cambria"),
        ("liberation sans", "arial"),
        ("liberation serif", "times new roman"),
        ("liberation mono", "courier new"),
        ("arimo", "arial"),
        ("tinos", "times new roman"),
        ("cousine", "courier new"),
        ("nimbus sans", "helvetica"),
        ("nimbus roman", "times new roman"),
        ("nimbus mono", "courier"),
        ("tex gyre heros", "helvetica"),
        ("tex gyre termes", "times new roman"),
        ("tex gyre cursor", "courier"),
        ("tex gyre pagella", "palatino"),
        ("tex gyre bonum", "bookman"),
        ("tex gyre schola", "century schoolbook"),
    ]
}

fn birth_entries() -> (r: Vec<(&'static str, u16)>)
    ensures
        r@.len() == birth_table().len(),
        forall|i: int|
            0 <= i < r@.len() ==> (#[trigger] r@[i]).0@ == birth_table()[i].0 && r@[i].1
                == birth_table()[i].1,
{
    vec![
        ("garamond", 1530u16),
        ("caslon", 1722u16),
        ("baskerville", 1757u16),
        ("bodoni", 1798u16),
        ("century schoolbook", 1919u16),
        ("futura", 1927u16),
        ("times new roman", 1931u16),
        ("times-roman", 1931u16),
        ("times", 1931u16),
        ("palatino", 1948u16),
        ("courier", 1955u16),
        ("courier new", 1955u16),
        ("helvetica", 1957u16),
        ("univers", 1957u16),
        ("optima", 1958u16),
        ("nimbus sans", 1984u16),
        ("nimbus roman", 1982u16),
        ("nimbus mono", 1984u16),
        ("itc zapf dingbats", 1978u16),
        ("arial", 1982u16),
        ("arial narrow", 1982u16),
        ("symbol", 1984u16),
        ("wingdings", 1990u16),
        ("comic sans ms", 1994u16),
        ("comic sans", 1994u16),
        ("comic", 1994u16),
        ("georgia", 1993u16),
        ("trebuchet ms", 1996u16),
        ("trebuchet", 1996u16),
        ("verdana", 1996u16),
        ("tahoma", 1994u16),
        ("andale mono", 1995u16),
        ("impact", 1965u16),
        ("carlito", 2013u16),
        ("caladea", 2013u16),
        ("liberation sans", 2007u16),
        ("liberation serif", 2007u16),
        ("liberation mono", 2007u16),
        ("dejavu sans", 2004u16),
        ("dejavu serif", 2004u16),
        ("dejavu", 2004u16),
        ("segoe ui", 2004u16),
        ("segoe", 2004u16),
        ("cambria", 2004u16),
        ("calibri", 2007u16),
        ("candara", 2006u16),
        ("corbel", 2005u16),
        ("consolas", 2005u16),
        ("constantia", 2005u16),
        ("aptos", 2023u16),
        ("tex gyre termes", 2006u16),
        ("tex gyre heros", 2006u16),
        ("tex gyre pagella", 2006u16),
        ("tex gyre bonum", 2006u16),
        ("tex gyre schola", 2006u16),
        ("tex gyre cursor", 2006u16),
        ("tex gyre adventor", 2006u16),
        ("texgyretermes", 2006u16),
        ("texgyreheros", 2006u16),
        ("source sans pro", 2012u16),
        ("source sans 3", 2012u16),
        ("source sans", 2012u16),
        ("source serif pro", 2014u16),
        ("source serif 4", 2014u16),
        ("source serif", 2014u16),
        ("source code pro", 2012u16),
        ("source han sans", 2014u16),
        ("noto sans", 2013u16),
        ("noto serif", 2013u16),
        ("noto mono", 2013u16),
        ("noto", 2013u16),
        ("ibm plex sans", 2017u16),
        ("ibm plex serif", 2017u16),
        ("ibm plex mono", 2017u16),
        ("ibm plex", 2017u16),
        ("inter", 2017u16),
        ("roboto", 2011u16),
        ("open sans", 2010u16),
        ("lato", 2010u16),
        ("jost", 2018u16),
        ("fira sans", 2013u16),
        ("fira code", 2015u16),
        ("ubuntu", 2010u16),
        ("merriweather", 2011u16),
        ("playfair display", 2011u16),
        ("eb garamond", 2011u16),
        ("libre baskerville", 2012u16),
        ("libre bodoni", 2023u16),
        ("libre caslon", 2014u16),
        ("courier prime", 2013u16),
        ("special elite", 2010u16),
        ("cutive mono", 2011u16),
        ("ogcourier", 2000u16),
        ("letter gothic", 1956u16),
        ("prestige elite", 1953u16),
        ("consola", 2005u16),
    ]
}

/// Entry `i` of the clone map is the first one whose key occurs in `name`.
pub open spec fn first_clone(name: Seq<char>, i: int) -> bool {
    &&& 0 <= i < clone_map().len()
    &&& contains(name, clone_map()[i].0)
    &&& forall|j: int| 0 <= j < i ==> !contains(name, (#[trigger] clone_map()[j]).0)
}

/// `canon` is the family that the lower-case name `name` stands for.
pub open spec fn is_canonical(name: Seq<char>, canon: Seq<char>) -> bool {
    ||| exists|i: int| #[trigger] first_clone(name, i) && canon == clone_map()[i].1
    ||| canon == name && forall|i: int|
        0 <= i < clone_map().len() ==> !contains(name, (#[trigger] clone_map()[i]).0)
}

/// The family that a name in lower case stands for: the family of the first clone whose key
/// occurs in it, or else the name itself.
pub fn canonical_of(lower: &str) -> (canon: String)
    ensures
        is_canonical(lower@, canon@),
{
    let name: Vec<char> = chars_of(lower);
    let entries: Vec<(&'static str, &'static str)> = clone_entries();
    let n: usize = entries.len();
    for i in 0..n
        invariant
            n == entries@.len(),
            name@ == lower@,
            entries@.len() == clone_map().len(),
            forall|k: int|
                0 <= k < entries@.len() ==> (#[trigger] entries@[k]).0@ == clone_map()[k].0
                    && entries@[k].1@ == clone_map()[k].1,
            forall|j: int| 0 <= j < i ==> !contains(name@, (#[trigger] clone_map()[j]).0),
    {
        let key: &str = entries[i].0;
        let canon: &str = entries[i].1;
        assert(entries@[i as int].0@ == clone_map()[i as int].0);
        if has_part(&name, &chars_of(key)) {
            assert(first_clone(name@, i as int));
            return copy_of(canon);
        }
    }
    copy_of(lower)
}

/// The canonical family for a family name: the family that a known clone stands in for, or
/// else the name itself in lower case.
pub fn canonical_family(family: &str) -> (canon: String)
    ensures
        is_canonical(in_lower_case(family@), canon@),
{
    canonical_of(to_lowercase(family).as_str())
}

/// A name has just one canonical family.
pub proof fn law_canonical_unique(name: Seq<char>, a: Seq<char>, b: Seq<char>)
    requires
        is_canonical(name, a),
        is_canonical(name, b),
    ensures
        a == b,
{
    if exists|i: int| #[trigger] first_clone(name, i) && a == clone_map()[i].1 {
        let i = choose|i: int| #[trigger] first_clone(name, i) && a == clone_map()[i].1;
        assert(contains(name, clone_map()[i].0));
        let j = choose|j: int| #[trigger] first_clone(name, j) && b == clone_map()[j].1;
        assert(first_clone(name, j));
        if i < j {
            assert(!contains(name, clone_map()[i].0));
        }
        if j < i {
            assert(!contains(name, clone_map()[j].0));
        }
    } else if exists|j: int| #[trigger] first_clone(name, j) && b == clone_map()[j].1 {
        let j = choose|j: int| #[trigger] first_clone(name, j) && b == clone_map()[j].1;
        assert(contains(name, clone_map()[j].0));
    }
}

/// A name lacks a key if it lacks one of the key's characters.
proof fn lemma_lacks(name: Seq<char>, key: Seq<char>, k: int)
    requires
        0 <= k < key.len(),
        forall|i: int| 0 <= i < name.len() ==> #[trigger] name[i] != key[k],
    ensures
        !contains(name, key),
{
    if contains(name, key) {
        let i = choose|i: int| #[trigger] occurs_at(name, key, i);
        assert(name.subrange(i, i + key.len())[k] == key[k]);
        assert(name[i + k] == key[k]);
    }
}

/// A name lacks a key if the key's first character stands only where the rest does not follow.
proof fn lemma_lacks_rest(name: Seq<char>, key: Seq<char>, k: int)
    requires
        0 <= k < key.len(),
        forall|i: int|
            0 <= i <= name.len() - key.len() && #[trigger] name[i] == key[0] ==> name[i + k] != key[k],
    ensures
        !contains(name, key),
{
    if contains(name, key) {
        let i = choose|i: int| #[trigger] occurs_at(name, key, i);
        assert(name.subrange(i, i + key.len())[0] == key[0]);
        assert(name.subrange(i, i + key.len())[k] == key[k]);
        assert(name[i] == key[0]);
    }
}

/// A name that holds no key of the clone map.
pub open spec fn no_clone(name: Seq<char>) -> bool {
    forall|i: int| 0 <= i < clone_map().len() ==> !contains(name, (#[trigger] clone_map()[i]).0)
}

/// The text is ASCII and has no capital letters.
pub open spec fn is_plain(name: Seq<char>) -> bool {
    forall|i: int|
        0 <= i < name.len() ==> '\0' <= #[trigger] name[i] <= '\u{7f}' && !('A' <= name[i] <= 'Z')
}

proof fn lemma_calibri_plain()
    ensures
        no_clone("calibri"@),
        is_plain("calibri"@),
{
    reveal_strlit("calibri");
    reveal_strlit("carlito");
    reveal_strlit("caladea");
    reveal_strlit("liberation sans");
    reveal_strlit("liberation serif");
    reveal_strlit("liberation mono");
    reveal_strlit("arimo");
    reveal_strlit("tinos");
    reveal_strlit("cousine");
    reveal_strlit("nimbus sans");
    reveal_strlit("nimbus roman");
    reveal_strlit("nimbus mono");
    reveal_strlit("tex gyre heros");
    reveal_strlit("tex gyre termes");
    reveal_strlit("tex gyre cursor");
    reveal_strlit("tex gyre pagella");
    reveal_strlit("tex gyre bonum");
    reveal_strlit("tex gyre schola");
    lemma_lacks("calibri"@, "carlito"@, 5);
    lemma_lacks("calibri"@, "caladea"@, 4);
    lemma_lacks("calibri"@, "arimo"@, 3);
    lemma_lacks("calibri"@, "tinos"@, 0);
    lemma_lacks("calibri"@, "cousine"@, 1);
}

proof fn lemma_cambria_plain()
    ensures
        no_clone("cambria"@),
        is_plain("cambria"@),
{
    reveal_strlit("cambria");
    reveal_strlit("carlito");
    reveal_strlit("caladea");
    reveal_strlit("liberation sans");
    reveal_strlit("liberation serif");
    reveal_strlit("liberation mono");
    reveal_strlit("arimo");
    reveal_strlit("tinos");
    reveal_strlit("cousine");
    reveal_strlit("nimbus sans");
    reveal_strlit("nimbus roman");
    reveal_strlit("nimbus mono");
    reveal_strlit("tex gyre heros");
    reveal_strlit("tex gyre termes");
    reveal_strlit("tex gyre cursor");
    reveal_strlit("tex gyre pagella");
    reveal_strlit("tex gyre bonum");
    reveal_strlit("tex gyre schola");
    lemma_lacks("cambria"@, "carlito"@, 3);
    lemma_lacks("cambria"@, "caladea"@, 2);
    lemma_lacks("cambria"@, "arimo"@, 4);
    lemma_lacks("cambria"@, "tinos"@, 0);
    lemma_lacks("cambria"@, "cousine"@, 1);
}

proof fn lemma_arial_plain()
    ensures
        no_clone("arial"@),
        is_plain("arial"@),
{
    reveal_strlit("arial");
    reveal_strlit("carlito");
    reveal_strlit("caladea");
    reveal_strlit("liberation sans");
    reveal_strlit("liberation serif");
    reveal_strlit("liberation mono");
    reveal_strlit("arimo");
    reveal_strlit("tinos");
    reveal_strlit("cousine");
    reveal_strlit("nimbus sans");
    reveal_strlit("nimbus roman");
    reveal_strlit("nimbus mono");
    reveal_strlit("tex gyre heros");
    reveal_strlit("tex gyre termes");
    reveal_strlit("tex gyre cursor");
    reveal_strlit("tex gyre pagella");
    reveal_strlit("tex gyre bonum");
    reveal_strlit("tex gyre schola");
    lemma_lacks("arial"@, "arimo"@, 3);
    lemma_lacks("arial"@, "tinos"@, 0);
}

proof fn lemma_times_new_roman_plain()
    ensures
        no_clone("times new roman"@),
        is_plain("times new roman"@),
{
    reveal_strlit("times new roman");
    reveal_strlit("carlito");
    reveal_strlit("caladea");
    reveal_strlit("liberation sans");
    reveal_strlit("liberation serif");
    reveal_strlit("liberation mono");
    reveal_strlit("arimo");
    reveal_strlit("tinos");
    reveal_strlit("cousine");
    reveal_strlit("nimbus sans");
    reveal_strlit("nimbus roman");
    reveal_strlit("nimbus mono");
    reveal_strlit("tex gyre heros");
    reveal_strlit("tex gyre termes");
    reveal_strlit("tex gyre cursor");
    reveal_strlit("tex gyre pagella");
    reveal_strlit("tex gyre bonum");
    reveal_strlit("tex gyre schola");
    lemma_lacks("times new roman"@, "carlito"@, 0);
    lemma_lacks("times new roman"@, "caladea"@, 0);
    lemma_lacks("times new roman"@, "liberation sans"@, 0);
    lemma_lacks("times new roman"@, "liberation mono"@, 0);
    lemma_lacks_rest("times new roman"@, "arimo"@, 0);
    lemma_lacks_rest("times new roman"@, "tinos"@, 2);
    lemma_lacks("times new roman"@, "cousine"@, 0);
    lemma_lacks("times new roman"@, "nimbus sans"@, 3);
    lemma_lacks("times new roman"@, "nimbus roman"@, 3);
    lemma_lacks("times new roman"@, "nimbus mono"@, 3);
    lemma_lacks("times new roman"@, "tex gyre heros"@, 2);
    lemma_lacks("times new roman"@, "tex gyre termes"@, 2);
    lemma_lacks("times new roman"@, "tex gyre cursor"@, 2);
    lemma_lacks("times new roman"@, "tex gyre bonum"@, 2);
    lemma_lacks("times new roman"@, "tex gyre schola"@, 2);
}

proof fn lemma_courier_new_plain()
    ensures
        no_clone("courier new"@),
        is_plain("courier new"@),
{
    reveal_strlit("courier new");
    reveal_strlit("carlito");
    reveal_strlit("caladea");
    reveal_strlit("liberation sans");
    reveal_strlit("liberation serif");
    reveal_strlit("liberation mono");
    reveal_strlit("arimo");
    reveal_strlit("tinos");
    reveal_strlit("cousine");
    reveal_strlit("nimbus sans");
    reveal_strlit("nimbus roman");
    reveal_strlit("nimbus mono");
    reveal_strlit("tex gyre heros");
    reveal_strlit("tex gyre termes");
    reveal_strlit("tex gyre cursor");
    reveal_strlit("tex gyre pagella");
    reveal_strlit("tex gyre bonum");
    reveal_strlit("tex gyre schola");
    lemma_lacks("courier new"@, "carlito"@, 1);
    lemma_lacks("courier new"@, "caladea"@, 1);
    lemma_lacks("courier new"@, "arimo"@, 0);
    lemma_lacks("courier new"@, "tinos"@, 0);
    lemma_lacks("courier new"@, "cousine"@, 3);
    lemma_lacks("courier new"@, "nimbus sans"@, 2);
    lemma_lacks("courier new"@, "nimbus mono"@, 2);
}

proof fn lemma_helvetica_plain()
    ensures
        no_clone("helvetica"@),
        is_plain("helvetica"@),
{
    reveal_strlit("helvetica");
    reveal_strlit("carlito");
    reveal_strlit("caladea");
    reveal_strlit("liberation sans");
    reveal_strlit("liberation serif");
    reveal_strlit("liberation mono");
    reveal_strlit("arimo");
    reveal_strlit("tinos");
    reveal_strlit("cousine");
    reveal_strlit("nimbus sans");
    reveal_strlit("nimbus roman");
    reveal_strlit("nimbus mono");
    reveal_strlit("tex gyre heros");
    reveal_strlit("tex gyre termes");
    reveal_strlit("tex gyre cursor");
    reveal_strlit("tex gyre pagella");
    reveal_strlit("tex gyre bonum");
    reveal_strlit("tex gyre schola");
    lemma_lacks("helvetica"@, "carlito"@, 2);
    lemma_lacks("helvetica"@, "caladea"@, 4);
    lemma_lacks("helvetica"@, "arimo"@, 1);
    lemma_lacks("helvetica"@, "tinos"@, 2);
    lemma_lacks("helvetica"@, "cousine"@, 1);
}

proof fn lemma_courier_plain()
    ensures
        no_clone("courier"@),
        is_plain("courier"@),
{
    reveal_strlit("courier");
    reveal_strlit("carlito");
    reveal_strlit("caladea");
    reveal_strlit("liberation sans");
    reveal_strlit("liberation serif");
    reveal_strlit("liberation mono");
    reveal_strlit("arimo");
    reveal_strlit("tinos");
    reveal_strlit("cousine");
    reveal_strlit("nimbus sans");
    reveal_strlit("nimbus roman");
    reveal_strlit("nimbus mono");
    reveal_strlit("tex gyre heros");
    reveal_strlit("tex gyre termes");
    reveal_strlit("tex gyre cursor");
    reveal_strlit("tex gyre pagella");
    reveal_strlit("tex gyre bonum");
    reveal_strlit("tex gyre schola");
    lemma_lacks("courier"@, "carlito"@, 1);
    lemma_lacks("courier"@, "caladea"@, 1);
    lemma_lacks("courier"@, "arimo"@, 0);
    lemma_lacks("courier"@, "tinos"@, 0);
    lemma_lacks("courier"@, "cousine"@, 3);
}

proof fn lemma_palatino_plain()
    ensures
        no_clone("palatino"@),
        is_plain("palatino"@),
{
    reveal_strlit("palatino");
    reveal_strlit("carlito");
    reveal_strlit("caladea");
    reveal_strlit("liberation sans");
    reveal_strlit("liberation serif");
    reveal_strlit("liberation mono");
    reveal_strlit("arimo");
    reveal_strlit("tinos");
    reveal_strlit("cousine");
    reveal_strlit("nimbus sans");
    reveal_strlit("nimbus roman");
    reveal_strlit("nimbus mono");
    reveal_strlit("tex gyre heros");
    reveal_strlit("tex gyre termes");
    reveal_strlit("tex gyre cursor");
    reveal_strlit("tex gyre pagella");
    reveal_strlit("tex gyre bonum");
    reveal_strlit("tex gyre schola");
    lemma_lacks("palatino"@, "carlito"@, 0);
    lemma_lacks("palatino"@, "caladea"@, 0);
    lemma_lacks("palatino"@, "arimo"@, 1);
    lemma_lacks("palatino"@, "tinos"@, 4);
    lemma_lacks("palatino"@, "cousine"@, 0);
}

proof fn lemma_bookman_plain()
    ensures
        no_clone("bookman"@),
        is_plain("bookman"@),
{
    reveal_strlit("bookman");
    reveal_strlit("carlito");
    reveal_strlit("caladea");
    reveal_strlit("liberation sans");
    reveal_strlit("liberation serif");
    reveal_strlit("liberation mono");
    reveal_strlit("arimo");
    reveal_strlit("tinos");
    reveal_strlit("cousine");
    reveal_strlit("nimbus sans");
    reveal_strlit("nimbus roman");
    reveal_strlit("nimbus mono");
    reveal_strlit("tex gyre heros");
    reveal_strlit("tex gyre termes");
    reveal_strlit("tex gyre cursor");
    reveal_strlit("tex gyre pagella");
    reveal_strlit("tex gyre bonum");
    reveal_strlit("tex gyre schola");
    lemma_lacks("bookman"@, "carlito"@, 0);
    lemma_lacks("bookman"@, "caladea"@, 0);
    lemma_lacks("bookman"@, "arimo"@, 1);
    lemma_lacks("bookman"@, "tinos"@, 0);
    lemma_lacks("bookman"@, "cousine"@, 0);
}

proof fn lemma_century_schoolbook_plain()
    ensures
        no_clone("century schoolbook"@),
        is_plain("century schoolbook"@),
{
    reveal_strlit("century schoolbook");
    reveal_strlit("carlito");
    reveal_strlit("caladea");
    reveal_strlit("liberation sans");
    reveal_strlit("liberation serif");
    reveal_strlit("liberation mono");
    reveal_strlit("arimo");
    reveal_strlit("tinos");
    reveal_strlit("cousine");
    reveal_strlit("nimbus sans");
    reveal_strlit("nimbus roman");
    reveal_strlit("nimbus mono");
    reveal_strlit("tex gyre heros");
    reveal_strlit("tex gyre termes");
    reveal_strlit("tex gyre cursor");
    reveal_strlit("tex gyre pagella");
    reveal_strlit("tex gyre bonum");
    reveal_strlit("tex gyre schola");
    lemma_lacks("century schoolbook"@, "carlito"@, 1);
    lemma_lacks("century schoolbook"@, "caladea"@, 1);
    lemma_lacks("century schoolbook"@, "liberation sans"@, 1);
    lemma_lacks("century schoolbook"@, "liberation serif"@, 1);
    lemma_lacks("century schoolbook"@, "liberation mono"@, 1);
    lemma_lacks("century schoolbook"@, "arimo"@, 0);
    lemma_lacks("century schoolbook"@, "tinos"@, 1);
    lemma_lacks("century schoolbook"@, "cousine"@, 4);
    lemma_lacks("century schoolbook"@, "nimbus sans"@, 1);
    lemma_lacks("century schoolbook"@, "nimbus roman"@, 1);
    lemma_lacks("century schoolbook"@, "nimbus mono"@, 1);
    lemma_lacks("century schoolbook"@, "tex gyre heros"@, 2);
    lemma_lacks("century schoolbook"@, "tex gyre termes"@, 2);
    lemma_lacks("century schoolbook"@, "tex gyre cursor"@, 2);
    lemma_lacks("century schoolbook"@, "tex gyre pagella"@, 2);
    lemma_lacks("century schoolbook"@, "tex gyre bonum"@, 2);
    lemma_lacks("century schoolbook"@, "tex gyre schola"@, 2);
}

/// The families that clones stand in for are no clones themselves, and in lower case.
proof fn lemma_families_plain(i: int)
    requires
        0 <= i < clone_map().len(),
    ensures
        no_clone(clone_map()[i].1),
        is_plain(clone_map()[i].1),
{
    lemma_calibri_plain();
    lemma_cambria_plain();
    lemma_arial_plain();
    lemma_times_new_roman_plain();
    lemma_courier_new_plain();
    lemma_helvetica_plain();
    lemma_courier_plain();
    lemma_palatino_plain();
    lemma_bookman_plain();
    lemma_century_schoolbook_plain();
}

/// A family that a clone stands in for stands for itself, so that looking up a canonical
/// family again changes nothing.
pub proof fn law_canonical_settled(name: Seq<char>, canon: Seq<char>)
    requires
        is_canonical(name, canon),
    ensures
        is_canonical(canon, canon),
        canon != name ==> is_plain(canon),
{
    if exists|i: int| #[trigger] first_clone(name, i) && canon == clone_map()[i].1 {
        let i = choose|i: int| #[trigger] first_clone(name, i) && canon == clone_map()[i].1;
        lemma_families_plain(i);
    }
}

proof fn lemma_plain_lower(s: Seq<char>)
    requires
        is_plain(s),
    ensures
        is_ascii_chars(s),
        in_lower_case(s) == s,
{
    assert(in_lower_case(s) =~= s);
}

/// The canonical family of a canonical family is that family: for clones of any name, for all
/// ASCII names, and for every name whose lower case is its own lower case.
pub proof fn law_canonical_twice(family: Seq<char>, first: Seq<char>, second: Seq<char>)
    requires
        is_ascii_chars(family) || first != in_lower_case(family) || in_lower_case(
            in_lower_case(family),
        ) == in_lower_case(family),
        is_canonical(in_lower_case(family), first),
        is_canonical(in_lower_case(first), second),
    ensures
        second == first,
{
    law_canonical_settled(in_lower_case(family), first);
    if first == in_lower_case(family) {
        if is_ascii_chars(family) {
            law_lower_case_settled(family);
        }
    } else {
        lemma_plain_lower(first);
    }
    law_canonical_unique(first, first, second);
}

/// The key of entry `i` of the birth table occurs in one of two lower-case names.
pub open spec fn entry_matches(a: Seq<char>, b: Seq<char>, i: int) -> bool {
    contains(a, birth_table()[i].0) || contains(b, birth_table()[i].0)
}

/// Entry `i` has the longest key that occurs in one of two names, and is the first of that
/// length.
pub open spec fn best_entry(a: Seq<char>, b: Seq<char>, i: int) -> bool {
    &&& 0 <= i < birth_table().len()
    &&& entry_matches(a, b, i)
    &&& forall|j: int|
        0 <= j < birth_table().len() && #[trigger] entry_matches(a, b, j) ==> {
            &&& birth_table()[j].0.len() <= birth_table()[i].0.len()
            &&& j < i ==> birth_table()[j].0.len() < birth_table()[i].0.len()
        }
}

/// `year` is what the birth table says of two names: the year of the best entry, if any
/// entry matches.
pub open spec fn is_year_of(a: Seq<char>, b: Seq<char>, year: Option<u16>) -> bool {
    match year {
        Some(y) => exists|i: int| #[trigger] best_entry(a, b, i) && y == birth_table()[i].1,
        None => forall|i: int| 0 <= i < birth_table().len() ==> !#[trigger] entry_matches(a, b, i),
    }
}

/// `year` is the birth year for a family and a PostScript name in lower case, where `canon` is
/// the canonical family and `known` what the table says of it: a clone has the year of the
/// family it stands in for, if that is known, and else the longest key in either name decides.
pub open spec fn is_year_for(
    canon: Seq<char>,
    known: Option<u16>,
    family: Seq<char>,
    ps_name: Seq<char>,
    year: Option<u16>,
) -> bool {
    if canon != family && known is Some {
        year == known
    } else {
        is_year_of(family, ps_name, year)
    }
}

/// `year` is the birth year for a family and a PostScript name in lower case.
pub open spec fn is_birth_year(family: Seq<char>, ps_name: Seq<char>, year: Option<u16>) -> bool {
    exists|canon: Seq<char>, known: Option<u16>|
        #![trigger is_canonical(family, canon), is_year_of(canon, canon, known)]
        is_canonical(family, canon) && is_year_of(canon, canon, known) && is_year_for(
            canon,
            known,
            family,
            ps_name,
            year,
        )
}

/// What the birth table says of two lower-case names; the longest matching key wins.
fn year_of(a: &str, b: &str) -> (year: Option<u16>)
    ensures
        is_year_of(a@, b@, year),
{
    let first: Vec<char> = chars_of(a);
    let second: Vec<char> = chars_of(b);
    let entries: Vec<(&'static str, u16)> = birth_entries();
    let n: usize = entries.len();
    let mut best: Option<(usize, u16)> = None;
    let ghost mut at: int = 0;
    for i in 0..n
        invariant
            n == entries@.len(),
            first@ == a@,
            second@ == b@,
            entries@.len() == birth_table().len(),
            forall|k: int|
                0 <= k < entries@.len() ==> (#[trigger] entries@[k]).0@ == birth_table()[k].0
                    && entries@[k].1 == birth_table()[k].1,
            best is None ==> forall|j: int| 0 <= j < i ==> !#[trigger] entry_matches(a@, b@, j),
            best is Some ==> {
                &&& 0 <= at < i
                &&& entry_matches(a@, b@, at)
                &&& (best->0).0 == birth_table()[at].0.len()
                &&& (best->0).1 == birth_table()[at].1
                &&& forall|j: int|
                    0 <= j < i && #[trigger] entry_matches(a@, b@, j) ==> {
                        &&& birth_table()[j].0.len() <= birth_table()[at].0.len()
                        &&& j < at ==> birth_table()[j].0.len() < birth_table()[at].0.len()
                    }
            },
    {
        let key: Vec<char> = chars_of(entries[i].0);
        let year: u16 = entries[i].1;
        assert(entries@[i as int].0@ == birth_table()[i as int].0);
        if has_part(&first, &key) || has_part(&second, &key) {
            assert(entry_matches(a@, b@, i as int));
            let longer: bool = match best {
                Some((len, _)) => len < key.len(),
                None => true,
            };
            if longer {
                best = Some((key.len(), year));
                proof {
                    at = i as int;
                }
            }
        }
    }
    match best {
        Some((_, y)) => {
            assert(best_entry(a@, b@, at));
            Some(y)
        },
        None => None,
    }
}

/// The birth year for a family and a PostScript name in lower case.
pub fn birth_year_of(family: &str, ps_name: &str) -> (year: Option<u16>)
    ensures
        is_birth_year(family@, ps_name@, year),
{
    let canon: String = canonical_of(family);
    let known: Option<u16> = year_of(canon.as_str(), canon.as_str());
    assert(is_canonical(family@, canon@) && is_year_of(canon@, canon@, known));
    if known.is_some() && !same_text(canon.as_str(), family) {
        return known;
    }
    year_of(family, ps_name)
}

/// The birth year of a font, by family and PostScript name. The longest key that occurs in
/// either decides, but a free clone has the year of the family it stands in for. `None` if no
/// key matches.
pub fn font_birth_year(family: &str, ps_name: &str) -> (year: Option<u16>)
    ensures
        is_birth_year(in_lower_case(family@), in_lower_case(ps_name@), year),
{
    birth_year_of(to_lowercase(family).as_str(), to_lowercase(ps_name).as_str())
}

proof fn lemma_year_unique(a: Seq<char>, b: Seq<char>, x: Option<u16>, y: Option<u16>)
    requires
        is_year_of(a, b, x),
        is_year_of(a, b, y),
    ensures
        x == y,
{
    if x is Some {
        let i = choose|i: int| #[trigger] best_entry(a, b, i) && x->0 == birth_table()[i].1;
        assert(entry_matches(a, b, i));
        let j = choose|j: int| #[trigger] best_entry(a, b, j) && y->0 == birth_table()[j].1;
        assert(best_entry(a, b, j));
        assert(entry_matches(a, b, j));
    } else if y is Some {
        let j = choose|j: int| #[trigger] best_entry(a, b, j) && y->0 == birth_table()[j].1;
        assert(entry_matches(a, b, j));
    }
}

/// A family and a PostScript name have just one birth year.
pub proof fn law_birth_year_unique(
    family: Seq<char>,
    ps_name: Seq<char>,
    x: Option<u16>,
    y: Option<u16>,
)
    requires
        is_birth_year(family, ps_name, x),
        is_birth_year(family, ps_name, y),
    ensures
        x == y,
{
    let (c, k) = choose|c: Seq<char>, k: Option<u16>|
        #![trigger is_canonical(family, c), is_year_of(c, c, k)]
        is_canonical(family, c) && is_year_of(c, c, k) && is_year_for(c, k, family, ps_name, x);
    let (d, l) = choose|d: Seq<char>, l: Option<u16>|
        #![trigger is_canonical(family, d), is_year_of(d, d, l)]
        is_canonical(family, d) && is_year_of(d, d, l) && is_year_for(d, l, family, ps_name, y);
    law_canonical_unique(family, c, d);
    lemma_year_unique(c, c, k, l);
    if !(c != family && k is Some) {
        lemma_year_unique(family, ps_name, x, y);
    }
}

/// A font that is no clone has the year of the longest key that occurs in its family or its
/// PostScript name, the first of equally long ones, and none where no key occurs.
pub proof fn law_longest_key(family: Seq<char>, ps_name: Seq<char>, year: Option<u16>)
    requires
        is_canonical(family, family),
        is_birth_year(family, ps_name, year),
    ensures
        is_year_of(family, ps_name, year),
{
    let (c, k) = choose|c: Seq<char>, k: Option<u16>|
        #![trigger is_canonical(family, c), is_year_of(c, c, k)]
        is_canonical(family, c) && is_year_of(c, c, k) && is_year_for(c, k, family, ps_name, year);
    law_canonical_unique(family, c, family);
}

/// What the table says of a name is what it says of the name and an empty text.
proof fn lemma_year_alone(name: Seq<char>, year: Option<u16>)
    requires
        is_year_of(name, Seq::empty(), year),
    ensures
        is_year_of(name, name, year),
{
    let none = Seq::<char>::empty();
    assert forall|i: int| #[trigger] entry_matches(name, name, i) == entry_matches(name, none, i) by {
        let key = birth_table()[i].0;
        if contains(none, key) {
            let k = choose|k: int| #[trigger] occurs_at(none, key, k);
            assert(name.subrange(0, 0) =~= key);
            assert(occurs_at(name, key, 0));
        }
    }
    match year {
        Some(y) => {
            let i = choose|i: int| #[trigger] best_entry(name, none, i) && y == birth_table()[i].1;
            assert(entry_matches(name, name, i));
            assert forall|j: int|
                0 <= j < birth_table().len() && #[trigger] entry_matches(name, name, j) implies {
                &&& birth_table()[j].0.len() <= birth_table()[i].0.len()
                &&& j < i ==> birth_table()[j].0.len() < birth_table()[i].0.len()
            } by {
                assert(entry_matches(name, none, j));
            }
            assert(best_entry(name, name, i));
        },
        None => {
            assert forall|i: int| 0 <= i < birth_table().len() implies !#[trigger] entry_matches(
                name,
                name,
                i,
            ) by {
                assert(!entry_matches(name, none, i));
            }
        },
    }
}

/// A clone has the birth year of the family it stands in for, whatever else its own names
/// would match, as long as that family has one by itself.
pub proof fn law_clone_year(
    family: Seq<char>,
    ps_name: Seq<char>,
    canon: Seq<char>,
    known: u16,
    year: Option<u16>,
)
    requires
        is_canonical(in_lower_case(family), canon),
        canon != in_lower_case(family),
        is_birth_year(in_lower_case(canon), in_lower_case(Seq::empty()), Some(known)),
        is_birth_year(in_lower_case(family), in_lower_case(ps_name), year),
    ensures
        year == Some(known),
{
    let lower = in_lower_case(family);
    law_canonical_settled(lower, canon);
    lemma_plain_lower(canon);
    assert(in_lower_case(Seq::empty()) =~= Seq::<char>::empty());
    law_longest_key(canon, Seq::empty(), Some(known));
    lemma_year_alone(canon, Some(known));
    let (c, k) = choose|c: Seq<char>, k: Option<u16>|
        #![trigger is_canonical(lower, c), is_year_of(c, c, k)]
        is_canonical(lower, c) && is_year_of(c, c, k) && is_year_for(
            c,
            k,
            lower,
            in_lower_case(ps_name),
            year,
        );
    law_canonical_unique(lower, c, canon);
    lemma_year_unique(canon, canon, k, Some(known));
}

/// Whether a font born in `birth_year` existed when the era began.
pub fn era_exists_for_font(birth_year: u16, era_start: u16) -> (r: bool)
    ensures
        r == (birth_year <= era_start),
{
    birth_year <= era_start
}

/// The year of two names is that of an entry whose key stands in one of them. No entry with a
/// longer key does, nor one with a key as long that comes before it in the table. Without such
/// an entry there is no year.
pub proof fn law_entry_chosen(a: Seq<char>, b: Seq<char>, year: Option<u16>, j: int)
    requires
        is_year_of(a, b, year),
        0 <= j < birth_table().len(),
        contains(a, birth_table()[j].0) || contains(b, birth_table()[j].0),
        forall|k: int|
            0 <= k < birth_table().len() && (contains(a, (#[trigger] birth_table()[k]).0)
                || contains(b, birth_table()[k].0)) ==> birth_table()[k].0.len()
                <= birth_table()[j].0.len() && (k < j ==> birth_table()[k].0.len()
                < birth_table()[j].0.len()),
    ensures
        year == Some(birth_table()[j].1),
{
    assert(entry_matches(a, b, j));
    assert forall|k: int| 0 <= k < birth_table().len() && #[trigger] entry_matches(a, b, k) implies {
        &&& birth_table()[k].0.len() <= birth_table()[j].0.len()
        &&& k < j ==> birth_table()[k].0.len() < birth_table()[j].0.len()
    } by {
        assert(birth_table()[k].0.len() <= birth_table()[j].0.len());
    }
    assert(best_entry(a, b, j));
    lemma_year_unique(a, b, year, Some(birth_table()[j].1));
}

/// The canonical family is that of the first clone whose key stands in the name; a name that
/// holds none is its own.
pub proof fn law_clone_chosen(name: Seq<char>, canon: Seq<char>, j: int)
    requires
        is_canonical(name, canon),
        0 <= j <= clone_map().len(),
        j < clone_map().len() ==> contains(name, clone_map()[j].0),
        forall|k: int| 0 <= k < j ==> !contains(name, (#[trigger] clone_map()[k]).0),
    ensures
        j < clone_map().len() ==> canon == clone_map()[j].1,
        j == clone_map().len() ==> canon == name,
{
    if j < clone_map().len() {
        assert(first_clone(name, j));
        law_canonical_unique(name, canon, clone_map()[j].1);
    } else {
        law_canonical_unique(name, canon, name);
    }
}


} // verus!
