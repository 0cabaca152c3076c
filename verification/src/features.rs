//! Character features: the set of characters and bigrams that are told apart, the layout
//! of feature vectors, and the measurement of glyph rasters.

use vstd::prelude::*;
use vstd::string::*;
use crate::contrast::{contrast_normalize_char, is_normalised, unsharp, sharpened};
use crate::glyph::{
    canvas_fits, canvas_h, canvas_w, framable, is_framed_to, is_ink, is_tight, measure,
    normalize_to_ink_bounds, scaled_w, CellBox, GlyphStats,
};
use crate::raster::{can_resize, in_size, resizable, resize, GrayImage, SIDE_LIMIT};
use crate::sorting::{sorted_unique, strictly_ascending};
use crate::text::{
    chars_of, copy_of, decimal, joined, in_lower_case, same_chars, same_text, split, split_chars,
    text_of, to_decimal, to_lowercase, views,
};

verus! {

/// Height in pixels to which characters are normalised.
pub const NORM_H: u32 = 24;

/// Bins of the column ink profile.
pub const PROFILE_BINS: usize = 16;

/// Bins of the row ink profile.
pub const ROW_PROFILE_BINS: usize = 16;

/// Scan lines along which crossings are counted.
pub const CROSSING_BINS: usize = 4;

/// Directions that stroke ends are sorted by.
pub const TERMINAL_ANGLE_BINS: usize = 4;

/// Scalars of the first group: aspect, density, vertical centre, balance, serifs, contrast.
pub const SCALAR_V1: usize = 6;

/// Scalars of the second group: counter, terminals, outline, crossings.
pub const SCALAR_V2: usize = 4 + TERMINAL_ANGLE_BINS + 2 + CROSSING_BINS;

/// Scalars of the third group: holes, symmetry, skeleton, corners, quadrants, stroke width.
pub const SCALAR_V3: usize = 1 + 1 + 1 + 2 + 1 + 4 + 1;

/// Length of a feature vector.
pub const FEAT_LEN: usize = PROFILE_BINS + ROW_PROFILE_BINS + SCALAR_V1 + SCALAR_V2 + SCALAR_V3;

/// The name of the group that dimension `i` of a feature vector belongs to.
pub open spec fn group_name(i: int) -> Seq<char> {
    if 0 <= i < PROFILE_BINS {
        "Col profile"@
    } else if i < PROFILE_BINS + SCALAR_V1 {
        "Scalar v1"@
    } else if i < PROFILE_BINS + SCALAR_V1 + SCALAR_V2 {
        "Scalar v2"@
    } else if i < PROFILE_BINS + SCALAR_V1 + SCALAR_V2 + ROW_PROFILE_BINS {
        "Row profile"@
    } else if i < FEAT_LEN {
        "Scalar v3"@
    } else {
        "unknown"@
    }
}

/// The name of the group that a dimension of a feature vector belongs to.
pub fn group_name_for_dim(i: usize) -> (name: &'static str)
    ensures
        name@ == group_name(i as int),
{
    if i < PROFILE_BINS {
        "Col profile"
    } else if i < PROFILE_BINS + SCALAR_V1 {
        "Scalar v1"
    } else if i < PROFILE_BINS + SCALAR_V1 + SCALAR_V2 {
        "Scalar v2"
    } else if i < PROFILE_BINS + SCALAR_V1 + SCALAR_V2 + ROW_PROFILE_BINS {
        "Row profile"
    } else if i < FEAT_LEN {
        "Scalar v3"
    } else {
        "unknown"
    }
}

// --- Names of the dimensions ---

/// The name of dimension `i` of a feature vector.
pub open spec fn dim_name(i: int) -> Seq<char> {
    if i < 16 {
        "col"@ + decimal(i as nat)
    } else if 36 <= i < 52 {
        "row"@ + decimal((i - 36) as nat)
    } else if i == 16 {
        "aspect"@
    } else if i == 17 {
        "ink_density"@
    } else if i == 18 {
        "v_center"@
    } else if i == 19 {
        "h_balance"@
    } else if i == 20 {
        "serif_score"@
    } else if i == 21 {
        "stroke_contrast"@
    } else if i == 22 {
        "counter_area"@
    } else if i == 23 {
        "counter_cx"@
    } else if i == 24 {
        "counter_cy"@
    } else if i == 25 {
        "counter_asp"@
    } else if i == 26 {
        "term0"@
    } else if i == 27 {
        "term1"@
    } else if i == 28 {
        "term2"@
    } else if i == 29 {
        "term3"@
    } else if i == 30 {
        "ink_perim"@
    } else if i == 31 {
        "compactness"@
    } else if i == 32 {
        "cross0"@
    } else if i == 33 {
        "cross1"@
    } else if i == 34 {
        "cross2"@
    } else if i == 35 {
        "cross3"@
    } else if i == 52 {
        "hole_count"@
    } else if i == 53 {
        "h_symmetry"@
    } else if i == 54 {
        "v_symmetry"@
    } else if i == 55 {
        "skeleton_branch"@
    } else if i == 56 {
        "skeleton_end"@
    } else if i == 57 {
        "corner_count"@
    } else if i == 58 {
        "quad_tl"@
    } else if i == 59 {
        "quad_tr"@
    } else if i == 60 {
        "quad_bl"@
    } else if i == 61 {
        "quad_br"@
    } else {
        "mean_stroke_w"@
    }
}

/// The name of a dimension of a feature vector.
pub fn feature_name(i: usize) -> (name: String)
    requires
        i < FEAT_LEN,
    ensures
        name@ == dim_name(i as int),
{
    if i < 16 {
        joined("col", text_of(&to_decimal(i as u64)).as_str())
    } else if i >= 36 && i < 52 {
        joined("row", text_of(&to_decimal((i - 36) as u64)).as_str())
    } else if i == 16 {
        copy_of("aspect")
    } else if i == 17 {
        copy_of("ink_density")
    } else if i == 18 {
        copy_of("v_center")
    } else if i == 19 {
        copy_of("h_balance")
    } else if i == 20 {
        copy_of("serif_score")
    } else if i == 21 {
        copy_of("stroke_contrast")
    } else if i == 22 {
        copy_of("counter_area")
    } else if i == 23 {
        copy_of("counter_cx")
    } else if i == 24 {
        copy_of("counter_cy")
    } else if i == 25 {
        copy_of("counter_asp")
    } else if i == 26 {
        copy_of("term0")
    } else if i == 27 {
        copy_of("term1")
    } else if i == 28 {
        copy_of("term2")
    } else if i == 29 {
        copy_of("term3")
    } else if i == 30 {
        copy_of("ink_perim")
    } else if i == 31 {
        copy_of("compactness")
    } else if i == 32 {
        copy_of("cross0")
    } else if i == 33 {
        copy_of("cross1")
    } else if i == 34 {
        copy_of("cross2")
    } else if i == 35 {
        copy_of("cross3")
    } else if i == 52 {
        copy_of("hole_count")
    } else if i == 53 {
        copy_of("h_symmetry")
    } else if i == 54 {
        copy_of("v_symmetry")
    } else if i == 55 {
        copy_of("skeleton_branch")
    } else if i == 56 {
        copy_of("skeleton_end")
    } else if i == 57 {
        copy_of("corner_count")
    } else if i == 58 {
        copy_of("quad_tl")
    } else if i == 59 {
        copy_of("quad_tr")
    } else if i == 60 {
        copy_of("quad_bl")
    } else if i == 61 {
        copy_of("quad_br")
    } else {
        copy_of("mean_stroke_w")
    }
}

/// The names of all dimensions of a feature vector.
pub fn feature_names() -> (names: Vec<String>)
    ensures
        names@.len() == FEAT_LEN,
        forall|i: int| 0 <= i < FEAT_LEN ==> #[trigger] names@[i]@ == dim_name(i),
{
    let mut names: Vec<String> = Vec::new();
    for i in 0..FEAT_LEN
        invariant
            names@.len() == i,
            forall|k: int| 0 <= k < i ==> #[trigger] names@[k]@ == dim_name(k),
    {
        names.push(feature_name(i));
    }
    names
}

// --- Anti-aliasing ---

/// Anti-aliasing of reference characters.
#[derive(Clone, Copy, Debug, PartialEq, Eq, Hash, Structural)]
pub enum AaVariant {
    /// As the rasteriser gives it.
    Native,
    /// Blurred slightly.
    Blur05,
    /// Sharpened by an unsharp mask.
    Sharpen,
}

impl AaVariant {
    /// The name of a variant.
    pub open spec fn spec_name(self) -> Seq<char> {
        match self {
            AaVariant::Native => "native"@,
            AaVariant::Blur05 => "blur05"@,
            AaVariant::Sharpen => "sharpen"@,
        }
    }

    /// `r` is the variant that a lower-case name denotes.
    pub open spec fn is_parse(s: Seq<char>, r: Option<AaVariant>) -> bool {
        r == if s == "native"@ {
            Some(AaVariant::Native)
        } else if s == "blur05"@ || s == "blur"@ || s == "blur_0.5"@ {
            Some(AaVariant::Blur05)
        } else if s == "sharpen"@ {
            Some(AaVariant::Sharpen)
        } else {
            None
        }
    }

    pub fn name(&self) -> (name: &'static str)
        ensures
            name@ == self.spec_name(),
    {
        match self {
            AaVariant::Native => "native",
            AaVariant::Blur05 => "blur05",
            AaVariant::Sharpen => "sharpen",
        }
    }

    /// The variant that a name denotes, without regard to case.
    pub fn parse(s: &str) -> (r: Option<AaVariant>)
        ensures
            AaVariant::is_parse(in_lower_case(s@), r),
    {
        let lower: String = to_lowercase(s);
        AaVariant::from_name(lower.as_str())
    }

    /// The variant that a lower-case name denotes.
    pub fn from_name(s: &str) -> (r: Option<AaVariant>)
        ensures
            AaVariant::is_parse(s@, r),
    {
        if same_text(s, "native") {
            Some(AaVariant::Native)
        } else if same_text(s, "blur05") || same_text(s, "blur") || same_text(s, "blur_0.5") {
            Some(AaVariant::Blur05)
        } else if same_text(s, "sharpen") {
            Some(AaVariant::Sharpen)
        } else {
            None
        }
    }

    /// All variants.
    pub fn all() -> (r: Vec<AaVariant>)
        ensures
            r@ == seq![AaVariant::Native, AaVariant::Blur05, AaVariant::Sharpen],
    {
        vec![AaVariant::Native, AaVariant::Blur05, AaVariant::Sharpen]
    }

    /// Applies the variant to a character, given the blurred character: the native variant
    /// ignores it, the blurred one is it, the sharpened one moves away from it.
    pub fn apply(&self, img: GrayImage, blurred: GrayImage) -> (out: GrayImage)
        requires
            img.wf(),
            blurred.wf(),
            blurred.width == img.width,
            blurred.height == img.height,
        ensures
            out.wf(),
            out.width == img.width,
            out.height == img.height,
            match *self {
                AaVariant::Native => out.data@ == img.data@,
                AaVariant::Blur05 => out.data@ == blurred.data@,
                AaVariant::Sharpen => forall|i: int|
                    0 <= i < img.data@.len() ==> #[trigger] out.data@[i] == sharpened(
                        img.data@[i],
                        blurred.data@[i],
                    ),
            },
    {
        match self {
            AaVariant::Native => img,
            AaVariant::Blur05 => blurred,
            AaVariant::Sharpen => unsharp(&img, &blurred),
        }
    }
}

/// The name of each variant denotes that variant.
pub proof fn law_variant_names(v: AaVariant)
    ensures
        AaVariant::is_parse(v.spec_name(), Some(v)),
{
    reveal_strlit("native");
    reveal_strlit("blur05");
    reveal_strlit("blur");
    reveal_strlit("blur_0.5");
    reveal_strlit("sharpen");
    assert("native"@[0] == 'n' && "blur05"@[0] == 'b' && "sharpen"@[0] == 's');
    assert("blur"@[0] == 'b' && "blur_0.5"@[0] == 'b');
}

// --- Supported characters ---

/// The characters from code point `from` on, `n` of them.
pub open spec fn char_run(from: int, n: nat) -> Seq<char> {
    Seq::new(n, |i: int| (from + i) as u8 as char)
}

/// The punctuation of ASCII.
pub open spec fn punctuation() -> Seq<char> {
    char_run(33, 15) + char_run(58, 7) + char_run(91, 6) + char_run(123, 4)
}

/// Dashes, typographic quotes and the ellipsis.
pub open spec fn typographic() -> Seq<char> {
    seq!['\u{2014}', '\u{2013}', '\u{2018}', '\u{2019}', '\u{201C}', '\u{201D}', '\u{2026}']
}

/// Ligatures of f with f, i and l.
pub open spec fn ligatures() -> Seq<char> {
    seq!['\u{FB00}', '\u{FB01}', '\u{FB02}', '\u{FB03}', '\u{FB04}']
}

/// The characters that are indexed: letters, digits, punctuation and typographic signs.
pub open spec fn indexed() -> Seq<char> {
    char_run(97, 26) + char_run(65, 26) + char_run(48, 10) + punctuation() + typographic()
}

/// The characters that are told apart: the indexed ones, and the ligatures.
pub open spec fn supported() -> Seq<char> {
    indexed() + ligatures()
}

fn push_run(v: &mut Vec<char>, from: u8, n: u8)
    requires
        from + n <= 128,
    ensures
        final(v)@ == old(v)@ + char_run(from as int, n as nat),
{
    let ghost start = v@;
    let mut i: u8 = 0;
    assert(start + char_run(from as int, 0) =~= start);
    while i < n
        invariant
            from + n <= 128,
            i <= n,
            v@ == start + char_run(from as int, i as nat),
        decreases n - i,
    {
        v.push((from + i) as char);
        i = i + 1;
        assert(v@ =~= start + char_run(from as int, i as nat));
    }
}

fn push_all(v: &mut Vec<char>, more: Vec<char>)
    ensures
        final(v)@ == old(v)@ + more@,
{
    let mut rest: Vec<char> = more;
    v.append(&mut rest);
}

/// The characters that are indexed.
pub fn indexed_chars() -> (v: Vec<char>)
    ensures
        v@ == indexed(),
{
    let mut v: Vec<char> = Vec::new();
    push_run(&mut v, 97, 26);
    push_run(&mut v, 65, 26);
    push_run(&mut v, 48, 10);
    push_run(&mut v, 33, 15);
    push_run(&mut v, 58, 7);
    push_run(&mut v, 91, 6);
    push_run(&mut v, 123, 4);
    push_all(
        &mut v,
        vec![
            '\u{2014}', '\u{2013}', '\u{2018}', '\u{2019}', '\u{201C}', '\u{201D}', '\u{2026}',
        ],
    );
    assert(v@ =~= indexed());
    v
}

/// The characters that are told apart.
pub fn supported_chars() -> (v: Vec<char>)
    ensures
        v@ == supported(),
{
    let mut v: Vec<char> = indexed_chars();
    push_all(&mut v, vec!['\u{FB00}', '\u{FB01}', '\u{FB02}', '\u{FB03}', '\u{FB04}']);
    assert(v@ =~= supported());
    v
}

fn among(v: &Vec<char>, c: char) -> (r: bool)
    ensures
        r == v@.contains(c),
{
    let n: usize = v.len();
    for i in 0..n
        invariant
            n == v@.len(),
            forall|k: int| 0 <= k < i ==> v@[k] != c,
    {
        if v[i] == c {
            return true;
        }
    }
    false
}

/// Whether a character is told apart.
pub fn is_supported(c: char) -> (r: bool)
    ensures
        r == supported().contains(c),
{
    among(&supported_chars(), c)
}

/// Whether a character is indexed.
pub fn is_indexed(c: char) -> (r: bool)
    ensures
        r == indexed().contains(c),
{
    among(&indexed_chars(), c)
}

/// The code point of supported character `i`.
spec fn supported_code(i: int) -> int {
    if i < 26 {
        97 + i
    } else if i < 52 {
        65 + (i - 26)
    } else if i < 62 {
        48 + (i - 52)
    } else if i < 77 {
        33 + (i - 62)
    } else if i < 84 {
        58 + (i - 77)
    } else if i < 90 {
        91 + (i - 84)
    } else if i < 94 {
        123 + (i - 90)
    } else if i == 94 {
        0x2014
    } else if i == 95 {
        0x2013
    } else if i == 96 {
        0x2018
    } else if i == 97 {
        0x2019
    } else if i == 98 {
        0x201c
    } else if i == 99 {
        0x201d
    } else if i == 100 {
        0x2026
    } else {
        0xfb00 + (i - 101)
    }
}

proof fn lemma_supported_code(i: int)
    requires
        0 <= i < 106,
    ensures
        supported()[i] as u32 == supported_code(i),
{
    let c = supported()[i];
    if i < 94 {
        let code = supported_code(i);
        assert(c == code as u8 as char);
        assert(0 <= code < 128);
    } else if i < 101 {
        assert(c == typographic()[i - 94]);
    } else {
        assert(c == ligatures()[i - 101]);
    }
}

/// No character is indexed twice.
pub proof fn law_indexed_distinct()
    ensures
        indexed().no_duplicates(),
        supported().no_duplicates(),
{
    assert(supported().len() == 106 && indexed().len() == 101);
    assert forall|i: int, j: int| 0 <= i < j < 106 implies supported()[i] != supported()[j] by {
        lemma_supported_code(i);
        lemma_supported_code(j);
    }
    assert forall|i: int, j: int| 0 <= i < j < 101 implies indexed()[i] != indexed()[j] by {
        assert(supported()[i] == indexed()[i] && supported()[j] == indexed()[j]);
    }
}

/// Whatever is indexed is also told apart; the ligatures are the difference.
pub proof fn law_indexed_supported(c: char)
    ensures
        supported().contains(c) <==> indexed().contains(c) || ligatures().contains(c),
{
    let all = supported();
    let n = indexed().len();
    if indexed().contains(c) {
        let i = choose|i: int| 0 <= i < n && indexed()[i] == c;
        assert(all[i] == c);
    }
    if ligatures().contains(c) {
        let i = choose|i: int| 0 <= i < ligatures().len() && ligatures()[i] == c;
        assert(all[n + i] == c);
    }
    if all.contains(c) {
        let i = choose|i: int| 0 <= i < all.len() && all[i] == c;
        if i < n {
            assert(indexed()[i] == c);
        } else {
            assert(ligatures()[i - n] == c);
        }
    }
}

// --- Bigrams ---

/// Frequent pairs of letters, pairs at the start of words, and pairs of digits.
pub open spec fn common_pairs() -> Seq<Seq<char>> {
    split(
        "th he in er an re on at en nd ti es or te of ed is it al ar st to nt ng se ha as ou io le ve co me de hi ri ro ic ne ea ra ce li ch ll be ma si om ur ca el ta la ns ge ly pe ec vi nc no tr sh di ss ag ni ct pr pl ad mi fo ow un su us mo ol wa pa do gi sa rs ex im po we ac il em fi ab ir id ho lo op Th He In An St Ar Ma Re Al Se Co De La Pr Ch Le Ca Ha Be En El Ne Mo Di Me Mi No Do Ba Lo To Ro Pa Fo Wi Si Li Ho Fi Ea Wh Gr Tr Fr Cr Cl Bl Fl Br Dr So Po Da Te We Bo Ri Ra Pe Sh 01 10 12 19 20 23 30 45 50 67 89 99"@,
        ' ',
    )
}

/// `s` is a letter followed by a full stop or a comma.
pub open spec fn is_letter_stop(s: Seq<char>) -> bool {
    &&& s.len() == 2
    &&& char_run(97, 26).contains(s[0]) || char_run(65, 26).contains(s[0])
    &&& s[1] == '.' || s[1] == ','
}

/// `s` is one of the bigrams that are told apart.
pub open spec fn is_bigram(s: Seq<char>) -> bool {
    common_pairs().contains(s) || is_letter_stop(s)
}

fn push_letter_stops(v: &mut Vec<Vec<char>>, from: u8)
    requires
        from + 26 <= 128,
    ensures
        forall|s: Seq<char>| #[trigger]
            views(final(v)@).contains(s) <==> views(old(v)@).contains(s) || (s.len() == 2
                && char_run(from as int, 26).contains(s[0]) && (s[1] == '.' || s[1] == ',')),
{
    let ghost start = views(v@);
    let mut i: u8 = 0;
    while i < 26
        invariant
            from + 26 <= 128,
            i <= 26,
            forall|s: Seq<char>| #[trigger]
                views(v@).contains(s) <==> start.contains(s) || (s.len() == 2 && char_run(
                    from as int,
                    i as nat,
                ).contains(s[0]) && (s[1] == '.' || s[1] == ',')),
        decreases 26 - i,
    {
        let c: char = (from + i) as char;
        let ghost before = views(v@);
        let stop: Vec<char> = vec![c, '.'];
        let comma: Vec<char> = vec![c, ','];
        let ghost sv = stop@;
        let ghost cv = comma@;
        v.push(stop);
        v.push(comma);
        proof {
            let after = views(v@);
            assert(after =~= before.push(sv).push(cv));
            let run0 = char_run(from as int, i as nat);
            let run1 = char_run(from as int, (i + 1) as nat);
            assert(run1 =~= run0.push(c));
            assert forall|s: Seq<char>| #[trigger]
                after.contains(s) <==> start.contains(s) || (s.len() == 2 && run1.contains(s[0])
                    && (s[1] == '.' || s[1] == ',')) by {
                lemma_push_contains(before, sv, s);
                lemma_push_contains(before.push(sv), cv, s);
                if s.len() == 2 {
                    lemma_push_contains(run0, c, s[0]);
                    if s[0] == c && s[1] == '.' {
                        assert(s =~= sv);
                    }
                    if s[0] == c && s[1] == ',' {
                        assert(s =~= cv);
                    }
                }
            }
        }
        i = i + 1;
    }
}

proof fn lemma_push_contains<T>(s: Seq<T>, x: T, y: T)
    ensures
        s.push(x).contains(y) <==> s.contains(y) || x == y,
{
    if s.contains(y) {
        let i = choose|i: int| 0 <= i < s.len() && s[i] == y;
        assert(s.push(x)[i] == y);
    }
    if x == y {
        assert(s.push(x)[s.len() as int] == y);
    }
    if s.push(x).contains(y) {
        let i = choose|i: int| 0 <= i < s.push(x).len() && s.push(x)[i] == y;
        if i < s.len() {
            assert(s[i] == y);
        }
    }
}

/// The bigrams that are told apart, in ascending order, each one once.
pub fn supported_bigrams_internal() -> (r: Vec<Vec<char>>)
    ensures
        strictly_ascending(views(r@)),
        forall|s: Seq<char>| #[trigger] views(r@).contains(s) <==> is_bigram(s),
{
    let text: Vec<char> = chars_of(
        "th he in er an re on at en nd ti es or te of ed is it al ar st to nt ng se ha as ou io le ve co me de hi ri ro ic ne ea ra ce li ch ll be ma si om ur ca el ta la ns ge ly pe ec vi nc no tr sh di ss ag ni ct pr pl ad mi fo ow un su us mo ol wa pa do gi sa rs ex im po we ac il em fi ab ir id ho lo op Th He In An St Ar Ma Re Al Se Co De La Pr Ch Le Ca Ha Be En El Ne Mo Di Me Mi No Do Ba Lo To Ro Pa Fo Wi Si Li Ho Fi Ea Wh Gr Tr Fr Cr Cl Bl Fl Br Dr So Po Da Te We Bo Ri Ra Pe Sh 01 10 12 19 20 23 30 45 50 67 89 99",
    );
    let mut v: Vec<Vec<char>> = split_chars(&text, ' ');
    push_letter_stops(&mut v, 97);
    push_letter_stops(&mut v, 65);
    sorted_unique(&v)
}

/// The sequences of `n` characters that are told apart: bigrams, and no others.
pub fn supported_sequences(n: usize) -> (r: Vec<Vec<char>>)
    ensures
        strictly_ascending(views(r@)),
        forall|s: Seq<char>| #[trigger] views(r@).contains(s) <==> n == 2 && is_bigram(s),
{
    if n == 2 {
        supported_bigrams_internal()
    } else {
        let none: Vec<Vec<char>> = Vec::new();
        assert(views(none@) =~= Seq::<Seq<char>>::empty());
        none
    }
}

/// Whether a sequence of characters is told apart.
pub fn is_supported_sequence(seq: &Vec<char>) -> (r: bool)
    ensures
        r == (seq@.len() == 2 && is_bigram(seq@)),
{
    let all: Vec<Vec<char>> = supported_sequences(seq.len());
    let n: usize = all.len();
    for i in 0..n
        invariant
            n == all@.len(),
            forall|s: Seq<char>| #[trigger] views(all@).contains(s) <==> seq@.len() == 2 && is_bigram(s),
            forall|k: int| 0 <= k < i ==> (#[trigger] all@[k])@ != seq@,
    {
        if same_chars(&all[i], seq) {
            assert(views(all@)[i as int] == seq@);
            assert(views(all@).contains(seq@));
            return true;
        }
    }
    proof {
        if views(all@).contains(seq@) {
            let k = choose|k: int| 0 <= k < n && views(all@)[k] == seq@;
            assert(all@[k]@ == seq@);
        }
    }
    false
}

// --- Feature vectors ---

/// The parts of a feature vector, each number by the bits of its single-precision value.
pub struct CropFeatures {
    pub profile: Vec<u32>,
    pub aspect: u32,
    pub ink_density: u32,
    pub v_center: u32,
    pub h_balance: u32,
    pub serif_score: u32,
    pub stroke_contrast: u32,
    pub counter_area_ratio: u32,
    pub counter_centroid_x: u32,
    pub counter_centroid_y: u32,
    pub counter_aspect: u32,
    pub terminal_angles: Vec<u32>,
    pub ink_perimeter: u32,
    pub compactness: u32,
    pub h_crossings: Vec<u32>,
    pub row_profile: Vec<u32>,
    pub hole_count: u32,
    pub h_symmetry: u32,
    pub v_symmetry: u32,
    pub skeleton_branch_pts: u32,
    pub skeleton_end_pts: u32,
    pub corner_count: u32,
    pub quadrant_density: Vec<u32>,
    pub mean_stroke_width: u32,
}

fn push_bits(v: &mut Vec<u32>, more: &Vec<u32>)
    ensures
        final(v)@ == old(v)@ + more@,
{
    let n: usize = more.len();
    let ghost start = v@;
    assert(start + more@.take(0) =~= start);
    for i in 0..n
        invariant
            n == more@.len(),
            v@ == start + more@.take(i as int),
    {
        v.push(more[i]);
        assert(v@ =~= start + more@.take(i + 1));
    }
    assert(more@.take(n as int) =~= more@);
}

impl CropFeatures {
    /// The parts have their fixed lengths.
    pub open spec fn wf(&self) -> bool {
        &&& self.profile@.len() == PROFILE_BINS
        &&& self.row_profile@.len() == ROW_PROFILE_BINS
        &&& self.terminal_angles@.len() == TERMINAL_ANGLE_BINS
        &&& self.h_crossings@.len() == CROSSING_BINS
        &&& self.quadrant_density@.len() == 4
    }

    /// The parts in the order of the feature vector.
    pub open spec fn flat(&self) -> Seq<u32> {
        self.profile@ + seq![
            self.aspect,
            self.ink_density,
            self.v_center,
            self.h_balance,
            self.serif_score,
            self.stroke_contrast,
            self.counter_area_ratio,
            self.counter_centroid_x,
            self.counter_centroid_y,
            self.counter_aspect,
        ] + self.terminal_angles@ + seq![self.ink_perimeter, self.compactness] + self.h_crossings@
            + self.row_profile@ + seq![
            self.hole_count,
            self.h_symmetry,
            self.v_symmetry,
            self.skeleton_branch_pts,
            self.skeleton_end_pts,
            self.corner_count,
        ] + self.quadrant_density@ + seq![self.mean_stroke_width]
    }

    /// The feature vector.
    pub fn as_slice(&self) -> (v: Vec<u32>)
        requires
            self.wf(),
        ensures
            v@ == self.flat(),
            v@.len() == FEAT_LEN,
    {
        let mut v: Vec<u32> = Vec::new();
        push_bits(&mut v, &self.profile);
        v.push(self.aspect);
        v.push(self.ink_density);
        v.push(self.v_center);
        v.push(self.h_balance);
        v.push(self.serif_score);
        v.push(self.stroke_contrast);
        v.push(self.counter_area_ratio);
        v.push(self.counter_centroid_x);
        v.push(self.counter_centroid_y);
        v.push(self.counter_aspect);
        push_bits(&mut v, &self.terminal_angles);
        v.push(self.ink_perimeter);
        v.push(self.compactness);
        push_bits(&mut v, &self.h_crossings);
        push_bits(&mut v, &self.row_profile);
        v.push(self.hole_count);
        v.push(self.h_symmetry);
        v.push(self.v_symmetry);
        v.push(self.skeleton_branch_pts);
        v.push(self.skeleton_end_pts);
        v.push(self.corner_count);
        push_bits(&mut v, &self.quadrant_density);
        v.push(self.mean_stroke_width);
        assert(v@ =~= self.flat());
        v
    }
}

/// `raster` is what is measured of an image: the image itself if it is already normalised,
/// and else its contrast-normalised version.
pub open spec fn is_measured_raster(img: GrayImage, pre_normalized: bool, raster: GrayImage) -> bool {
    &&& raster.wf()
    &&& raster.width == img.width
    &&& raster.height == img.height
    &&& if pre_normalized {
        raster.data@ == img.data@
    } else {
        is_normalised(img.data@, raster.data@)
    }
}

/// Measures a glyph image, after normalising its contrast unless that has been done before.
/// An image without ink gives `None`.
pub fn compute_features(img: GrayImage, pre_normalized: bool) -> (r: Option<GlyphStats>)
    requires
        img.wf(),
        pre_normalized || img.data@.len() * 99 <= u32::MAX,
    ensures
        match r {
            Some(stats) => is_measured_raster(img, pre_normalized, stats.raster) && stats.measured(
                CROSSING_BINS as int,
            ),
            None => exists|raster: GrayImage| #[trigger]
                is_measured_raster(img, pre_normalized, raster) && forall|i: int|
                    0 <= i < raster.data@.len() ==> !#[trigger] is_ink(raster.data@)(i),
        },
{
    let raster: GrayImage = if pre_normalized {
        img
    } else {
        contrast_normalize_char(img)
    };
    assert(is_measured_raster(img, pre_normalized, raster));
    measure(raster, CROSSING_BINS)
}

/// The smallest side of a degraded image.
pub const LEAST_SIDE: u32 = 3;

/// A side of a degraded image.
pub open spec fn degraded_side(n: u32) -> u32 {
    if n < LEAST_SIDE {
        LEAST_SIDE
    } else {
        n
    }
}

/// `r` is an image that was made smaller, and then framed and brought to the usual height
/// again.
pub open spec fn is_degraded(img: GrayImage, w: u32, h: u32, r: Option<GrayImage>) -> bool {
    exists|small: GrayImage| #[trigger]
        in_size(img, degraded_side(w), degraded_side(h), small) && is_framed_to(
            small,
            NORM_H as int,
            r,
        )
}

/// An image can be made `w` by `h` pixels large, and framed again, whatever ink is left.
pub open spec fn degradable(img: GrayImage, w: u32, h: u32) -> bool {
    &&& resizable(img.width, img.height, w, h)
    &&& forall|small: GrayImage| #[trigger]
        in_size(img, w, h, small) ==> framable(small, NORM_H)
}

/// Any ink in `w` by `h` pixels can be framed and brought to the usual height.
pub open spec fn is_small(w: u32, h: u32) -> bool {
    &&& (w + 2) * NORM_H <= 3 * SIDE_LIMIT
    &&& h + 2 <= SIDE_LIMIT
    &&& (w + 2) * (h + 2) <= usize::MAX
}

proof fn lemma_small_framable(img: GrayImage)
    requires
        img.wf(),
        is_small(img.width, img.height),
    ensures
        framable(img, NORM_H),
{
    let iw = img.width as int;
    let n = img.data@.len() as int;
    assert forall|b: CellBox| #[trigger]
        is_tight(is_ink(img.data@), iw, n, b) implies canvas_fits(b, NORM_H) by {
        let p = is_ink(img.data@);
        let right = choose|i: int| 0 <= i < n && #[trigger] p(i) && i % iw == b.max_x;
        let low = choose|i: int| 0 <= i < n && #[trigger] p(i) && i / iw == b.max_y;
        crate::grid::lemma_cell(iw, img.height as int, right);
        crate::grid::lemma_cell(iw, img.height as int, low);
        let cw = canvas_w(b);
        let ch = canvas_h(b);
        assert(cw <= iw + 2 && ch <= img.height + 2);
        assert(cw >= 3 && ch >= 3);
        assert(cw * ch <= (iw + 2) * (img.height + 2)) by (nonlinear_arith)
            requires
                0 <= cw <= iw + 2,
                0 <= ch <= img.height + 2,
        ;
        let num = cw * NORM_H;
        let q = scaled_w(b, NORM_H as int);
        assert(q <= SIDE_LIMIT) by (nonlinear_arith)
            requires
                q == (num + ch - 1) / ch,
                ch >= 3,
                0 <= num <= 3 * SIDE_LIMIT,
        ;
    }
}

/// Whether an image can be made `w` by `h` pixels large and then framed, as it always can where
/// the size is not out of the ordinary.
pub fn can_degrade(img: &GrayImage, w: u32, h: u32) -> (r: bool)
    ensures
        r == (resizable(img.width, img.height, w, h) && is_small(w, h)),
        r ==> degradable(*img, w, h),
{
    assert(0 <= (w + 2) * (h + 2) <= 0x1_0000_0001 * 0x1_0000_0001) by (nonlinear_arith)
        requires
            0 <= w <= 0xffff_ffff,
            0 <= h <= 0xffff_ffff,
    ;
    let norm_h: u64 = NORM_H as u64;
    assert((w + 2) * norm_h <= 0x1_0000_0001 * 0x1_0000) by (nonlinear_arith)
        requires
            0 <= w <= 0xffff_ffff,
            norm_h <= 0x1_0000,
    ;
    let small: bool = (w as u64 + 2) * norm_h <= 3 * SIDE_LIMIT as u64 && h as u64 + 2
        <= SIDE_LIMIT as u64 && (w as u128 + 2) * (h as u128 + 2) <= usize::MAX as u128;
    assert(small == is_small(w, h));
    proof {
        if small {
            assert forall|out: GrayImage| #[trigger] in_size(*img, w, h, out) implies framable(
                out,
                NORM_H,
            ) by {
                lemma_small_framable(out);
            }
        }
    }
    small && can_resize(img.width, img.height, w, h)
}

/// Makes an image smaller, as a coarse scan does, and brings it to the usual height again.
/// The scaled sides are rounded by the caller.
pub fn degrade_and_renormalize(img: &GrayImage, scaled_w: u32, scaled_h: u32) -> (r: Option<
    GrayImage,
>)
    requires
        img.wf(),
        degradable(*img, degraded_side(scaled_w), degraded_side(scaled_h)),
    ensures
        is_degraded(*img, scaled_w, scaled_h, r),
{
    let w: u32 = if scaled_w < LEAST_SIDE {
        LEAST_SIDE
    } else {
        scaled_w
    };
    let h: u32 = if scaled_h < LEAST_SIDE {
        LEAST_SIDE
    } else {
        scaled_h
    };
    let small: GrayImage = resize(img, w, h);
    assert(in_size(*img, degraded_side(scaled_w), degraded_side(scaled_h), small));
    normalize_to_ink_bounds(&small, NORM_H)
}

// --- What the sets and vectors hold ---

/// Indexed are the printing characters of ASCII without the space, and two dashes, four
/// quotes and the ellipsis. Told apart are five ligatures besides.
pub proof fn law_character_sets(c: char)
    ensures
        indexed().contains(c) <==> 33 <= c as u32 <= 126 || c as u32 == 0x2013 || c as u32 == 0x2014
            || c as u32 == 0x2018 || c as u32 == 0x2019 || c as u32 == 0x201c || c as u32 == 0x201d
            || c as u32 == 0x2026,
        supported().contains(c) <==> indexed().contains(c) || 0xfb00 <= c as u32 <= 0xfb04,
{
    let s = supported();
    let ix = indexed();
    assert(ix.len() == 101 && s.len() == 106);
    assert forall|i: int| 0 <= i < 101 implies ix[i] == s[i] by {}
    let code = c as u32 as int;
    let at = if 97 <= code <= 122 {
        code - 97
    } else if 65 <= code <= 90 {
        code - 65 + 26
    } else if 48 <= code <= 57 {
        code - 48 + 52
    } else if 33 <= code <= 47 {
        code - 33 + 62
    } else if 58 <= code <= 64 {
        code - 58 + 77
    } else if 91 <= code <= 96 {
        code - 91 + 84
    } else if 123 <= code <= 126 {
        code - 123 + 90
    } else if code == 0x2014 {
        94
    } else if code == 0x2013 {
        95
    } else if code == 0x2018 {
        96
    } else if code == 0x2019 {
        97
    } else if code == 0x201c {
        98
    } else if code == 0x201d {
        99
    } else if code == 0x2026 {
        100
    } else if 0xfb00 <= code <= 0xfb04 {
        101 + code - 0xfb00
    } else {
        -1
    };
    if 0 <= at {
        lemma_supported_code(at);
        assert(s[at] as u32 == c as u32);
        assert(s[at] == c);
        if at < 101 {
            assert(ix[at] == c);
        }
    }
    if ix.contains(c) {
        let i = choose|i: int| 0 <= i < ix.len() && ix[i] == c;
        lemma_supported_code(i);
    }
    if s.contains(c) {
        let i = choose|i: int| 0 <= i < s.len() && s[i] == c;
        lemma_supported_code(i);
        if i < 101 {
            assert(ix[i] == c);
        }
    }
}

/// A letter with a stop is a letter of the Latin alphabet, small or large, before a full stop
/// or a comma.
pub proof fn law_letter_stop(s: Seq<char>)
    ensures
        is_letter_stop(s) <==> s.len() == 2 && (97 <= s[0] as u32 <= 122 || 65 <= s[0] as u32 <= 90)
            && (s[1] == '.' || s[1] == ','),
{
    if s.len() == 2 {
        lemma_in_run(97, s[0]);
        lemma_in_run(65, s[0]);
    }
}

proof fn lemma_in_run(from: int, c: char)
    requires
        0 <= from <= 102,
    ensures
        char_run(from, 26).contains(c) <==> from <= (c as u32) && (c as u32) < from + 26,
{
    let r = char_run(from, 26);
    if from <= c as u32 && (c as u32) < from + 26 {
        let i = c as u32 - from;
        assert(r[i] == (from + i) as u8 as char);
        assert(r[i] as u32 == c as u32);
        assert(r[i] == c);
    }
    if r.contains(c) {
        let i = choose|i: int| 0 <= i < r.len() && r[i] == c;
        assert(r[i] == (from + i) as u8 as char);
    }
}

/// A feature vector has 63 numbers, each at the place that its name has: the column profile,
/// the six and then the fourteen scalars, the row profile, and the eleven scalars of the last
/// group.
pub proof fn law_vector_layout(f: CropFeatures, i: int)
    requires
        f.wf(),
    ensures
        f.flat().len() == 63,
        0 <= i < 16 ==> f.flat()[i] == f.profile@[i],
        f.flat()[16] == f.aspect,
        f.flat()[17] == f.ink_density,
        f.flat()[18] == f.v_center,
        f.flat()[19] == f.h_balance,
        f.flat()[20] == f.serif_score,
        f.flat()[21] == f.stroke_contrast,
        f.flat()[22] == f.counter_area_ratio,
        f.flat()[23] == f.counter_centroid_x,
        f.flat()[24] == f.counter_centroid_y,
        f.flat()[25] == f.counter_aspect,
        0 <= i < 4 ==> f.flat()[26 + i] == f.terminal_angles@[i],
        f.flat()[30] == f.ink_perimeter,
        f.flat()[31] == f.compactness,
        0 <= i < 4 ==> f.flat()[32 + i] == f.h_crossings@[i],
        0 <= i < 16 ==> f.flat()[36 + i] == f.row_profile@[i],
        f.flat()[52] == f.hole_count,
        f.flat()[53] == f.h_symmetry,
        f.flat()[54] == f.v_symmetry,
        f.flat()[55] == f.skeleton_branch_pts,
        f.flat()[56] == f.skeleton_end_pts,
        f.flat()[57] == f.corner_count,
        0 <= i < 4 ==> f.flat()[58 + i] == f.quadrant_density@[i],
        f.flat()[62] == f.mean_stroke_width,
{
}

/// The groups follow each other as the parts of a feature vector do.
pub proof fn law_groups(i: int)
    ensures
        0 <= i < 16 ==> group_name(i) == "Col profile"@,
        16 <= i < 22 ==> group_name(i) == "Scalar v1"@,
        22 <= i < 36 ==> group_name(i) == "Scalar v2"@,
        36 <= i < 52 ==> group_name(i) == "Row profile"@,
        52 <= i < 63 ==> group_name(i) == "Scalar v3"@,
        i >= 63 ==> group_name(i) == "unknown"@,
{
}

/// A degraded image has no side shorter than three pixels; longer sides stay.
pub proof fn law_degraded_side(n: u32)
    ensures
        degraded_side(n) >= 3,
        degraded_side(n) >= n,
        degraded_side(n) == 3 || degraded_side(n) == n,
{
}

/// Bringing a character to the usual height makes it 24 pixels high.
pub proof fn law_degraded_height(img: GrayImage, w: u32, h: u32, r: Option<GrayImage>)
    requires
        is_degraded(img, w, h, r),
    ensures
        r matches Some(out) ==> out.height == 24 && out.width >= 2,
{
}

/// What is measured of an image that is normalised already is the image itself; of another one
/// it is its normalised version, pixel for pixel in the same size.
pub proof fn law_measured_raster(img: GrayImage, raster: GrayImage)
    requires
        img.wf(),
    ensures
        is_measured_raster(img, true, raster) ==> raster.data@ == img.data@ && raster.width
            == img.width && raster.height == img.height,
        is_measured_raster(img, false, raster) ==> is_normalised(img.data@, raster.data@)
            && raster.data@.len() == img.data@.len() && raster.width == img.width
            && raster.height == img.height,
{
}


} // verus!
