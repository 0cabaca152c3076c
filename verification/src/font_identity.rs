//! What a font file tells of its font: names, weight and slant.

use vstd::prelude::*;
use vstd::string::*;
use crate::text::{chars_of, copy_of, text_of};

verus! {

/// A record of a font's name table: its number, and its text where it is in Unicode.
pub type NameRecord = (u16, Option<String>);

/// A record as a value.
pub type NameRow = (u16, Option<Seq<char>>);

pub open spec fn text_view(s: Option<String>) -> Option<Seq<char>> {
    match s {
        Some(t) => Some(t@),
        None => None,
    }
}

pub open spec fn name_rows(v: Seq<NameRecord>) -> Seq<NameRow> {
    Seq::new(v.len(), |i: int| (v[i].0, text_view(v[i].1)))
}

// --- Tables of a font file ---

/// A font file that is read has at most this many bytes.
pub const FILE_LIMIT: usize = 0xffef_ffff;

/// The number that four bytes make, the highest first.
pub open spec fn number_at(data: Seq<u8>, at: int) -> int {
    data[at] * 0x100_0000 + data[at + 1] * 0x1_0000 + data[at + 2] * 0x100 + data[at + 3]
}

/// The mark of a file that holds several fonts, `ttcf`.
pub const COLLECTION: u32 = 0x7474_6366;

/// A file of several fonts does not count more fonts than could be listed below the largest
/// offset. No shorter file can hold such a list.
pub open spec fn header_sound(font: Seq<u8>) -> bool {
    font.len() >= 12 && number_at(font, 0) == COLLECTION ==> number_at(font, 8) * 4 + 12
        <= u32::MAX
}

fn number_of(data: &[u8], at: usize) -> (n: u32)
    requires
        at + 4 <= data@.len(),
    ensures
        n == number_at(data@, at as int),
{
    data[at] as u32 * 0x100_0000 + data[at + 1] as u32 * 0x1_0000 + data[at + 2] as u32 * 0x100
        + data[at + 3] as u32
}

/// Whether the header of a font file can be read.
pub fn has_sound_header(font: &[u8]) -> (r: bool)
    ensures
        r == header_sound(font@),
{
    font.len() < 12 || number_of(font, 0) != COLLECTION || number_of(font, 8) as u64 * 4 + 12
        <= 0xffff_ffff
}

/// A table of a font file: its tag, where it begins and how long it is.
pub type TableEntry = (u32, u32, u32);

/// The `i`-th table that `ttf_parser::RawFace` lists of the first font in the bytes of a file.
pub uninterp spec fn listed_table(font: Seq<u8>, i: int) -> Option<(u32, u32, u32)>;

/// Calls `ttf_parser::RawFace::parse` on the first font of the bytes and gets one of its table
/// records. The result is named; the one thing told of it is that the list has no gaps: where
/// there is no record, none follows. A collection that counts more fonts than offsets can
/// reach is left out, and so are files near the largest offset, as the outside function
/// asserts in debug builds that it does not read beyond that.
#[verifier::external_body]
fn table_entry(font: &[u8], i: u16) -> (r: Option<TableEntry>)
    requires
        header_sound(font@),
        font@.len() <= FILE_LIMIT,
    ensures
        r == listed_table(font@, i as int),
        r is None ==> forall|j: int|
            i <= j <= u16::MAX ==> #[trigger] listed_table(font@, j) is None,
{
    let face = rustybuzz::ttf_parser::RawFace::parse(font, 0).ok()?;
    let record = face.table_records.get(i)?;
    Some((record.tag.0, record.offset, record.length))
}

/// The bytes of a table, among the first `n` that are listed: those of the last entry with the
/// tag, if they lie in the file. Entries whose end cannot be told do not count.
pub open spec fn table_among(font: Seq<u8>, tag: u32, n: int) -> Option<Seq<u8>>
    decreases n,
{
    if n <= 0 {
        None
    } else {
        match listed_table(font, n - 1) {
            Some((t, from, len)) => if t == tag && from + len <= usize::MAX {
                if from + len <= font.len() {
                    Some(font.subrange(from as int, from + len))
                } else {
                    None
                }
            } else {
                table_among(font, tag, n - 1)
            },
            None => table_among(font, tag, n - 1),
        }
    }
}

/// How many tables can be listed.
pub const TABLE_LIMIT: u32 = 0x1_0000;

/// The bytes of a table of a font.
pub open spec fn table_of(font: Seq<u8>, tag: u32) -> Option<Seq<u8>> {
    table_among(font, tag, TABLE_LIMIT as int)
}

proof fn lemma_no_more(font: Seq<u8>, tag: u32, i: int, n: int)
    requires
        0 <= i <= n,
        forall|j: int| i <= j < n ==> #[trigger] listed_table(font, j) is None,
    ensures
        table_among(font, tag, n) == table_among(font, tag, i),
    decreases n,
{
    if i < n {
        assert(listed_table(font, n - 1) is None);
        lemma_no_more(font, tag, i, n - 1);
    }
}

pub open spec fn bytes_view(v: Option<Vec<u8>>) -> Option<Seq<u8>> {
    match v {
        Some(b) => Some(b@),
        None => None,
    }
}

fn copy_range(data: &[u8], from: usize, to: usize) -> (r: Vec<u8>)
    requires
        from <= to <= data@.len(),
    ensures
        r@ == data@.subrange(from as int, to as int),
{
    let mut r: Vec<u8> = Vec::new();
    for i in from..to
        invariant
            from <= to <= data@.len(),
            r@ == data@.subrange(from as int, i as int),
    {
        r.push(data[i]);
        assert(r@ =~= data@.subrange(from as int, i + 1));
    }
    r
}

/// The bytes of a table of a font.
fn find_table(font: &[u8], tag: u32) -> (r: Option<Vec<u8>>)
    requires
        header_sound(font@),
        font@.len() <= FILE_LIMIT,
    ensures
        bytes_view(r) == table_of(font@, tag),
{
    let mut found: Option<Vec<u8>> = None;
    let mut i: u32 = 0;
    while i < TABLE_LIMIT
        invariant
            i <= TABLE_LIMIT,
            header_sound(font@),
            font@.len() <= FILE_LIMIT,
            bytes_view(found) == table_among(font@, tag, i as int),
        decreases TABLE_LIMIT - i,
    {
        match table_entry(font, i as u16) {
            None => {
                proof {
                    lemma_no_more(font@, tag, i as int, TABLE_LIMIT as int);
                }
                return found;
            },
            Some((t, from, len)) => {
                let end: u64 = from as u64 + len as u64;
                if t == tag && end <= usize::MAX as u64 {
                    found = if end <= font.len() as u64 {
                        Some(copy_range(font, from as usize, end as usize))
                    } else {
                        None
                    };
                }
            },
        }
        i = i + 1;
    }
    found
}

/// The tables that tell the names, the weight and the slant of a font.
pub struct FaceTables {
    pub head: Vec<u8>,
    pub hhea: Vec<u8>,
    pub maxp: Vec<u8>,
    pub name: Option<Vec<u8>>,
    pub os2: Option<Vec<u8>>,
    pub post: Option<Vec<u8>>,
}

/// What these tables tell: the records of the name table, the weight where there is one, and
/// whether the font is italic.
pub struct FaceFacts {
    pub names: Vec<NameRecord>,
    pub weight: Option<u16>,
    pub italic: bool,
}

/// The same as a value.
pub type FaceRow = (Seq<NameRow>, Option<u16>, bool);

pub open spec fn face_row(f: Option<FaceFacts>) -> Option<FaceRow> {
    match f {
        Some(f) => Some((name_rows(f.names@), f.weight, f.italic)),
        None => None,
    }
}

/// What `ttf_parser::Face` tells of a font with these tables, where they make a font.
pub uninterp spec fn told_by_tables(
    head: Seq<u8>,
    hhea: Seq<u8>,
    maxp: Seq<u8>,
    name: Option<Seq<u8>>,
    os2: Option<Seq<u8>>,
    post: Option<Seq<u8>>,
) -> Option<(Seq<(u16, Option<Seq<char>>)>, Option<u16>, bool)>;

/// Calls `ttf_parser::Face::from_raw_tables` and asks the face for its names, in the order of
/// `Face::names` and with the text that `Name::to_string` has of each, for the weight in its
/// OS/2 table, and `Face::is_italic`. The result is only named.
#[verifier::external_body]
fn read_tables(t: &FaceTables) -> (r: Option<FaceFacts>)
    ensures
        face_row(r) == told_by_tables(
            t.head@,
            t.hhea@,
            t.maxp@,
            bytes_view(t.name),
            bytes_view(t.os2),
            bytes_view(t.post),
        ),
{
    let mut raw = rustybuzz::ttf_parser::RawFaceTables::default();
    raw.head = &t.head;
    raw.hhea = &t.hhea;
    raw.maxp = &t.maxp;
    raw.name = t.name.as_deref();
    raw.os2 = t.os2.as_deref();
    raw.post = t.post.as_deref();
    let face = rustybuzz::ttf_parser::Face::from_raw_tables(raw).ok()?;
    let names = face.names().into_iter().map(|n| (n.name_id, n.to_string())).collect();
    let weight = face.tables().os2.map(|os2| os2.weight().to_number());
    Some(FaceFacts { names, weight, italic: face.is_italic() })
}

/// The tags `head`, `hhea`, `maxp`, `name`, `OS/2` and `post`.
pub const HEAD: u32 = 0x6865_6164;

pub const HHEA: u32 = 0x6868_6561;

pub const MAXP: u32 = 0x6d61_7870;

pub const NAME: u32 = 0x6e61_6d65;

pub const OS2: u32 = 0x4f53_2f32;

pub const POST: u32 = 0x706f_7374;

pub open spec fn or_empty(t: Option<Seq<u8>>) -> Seq<u8> {
    match t {
        Some(b) => b,
        None => Seq::empty(),
    }
}

/// What the bytes of a font file tell of its first font; nothing where they are no font.
pub open spec fn told_by_file(font: Seq<u8>) -> Option<FaceRow> {
    if header_sound(font) {
        told_by_tables(
            or_empty(table_of(font, HEAD)),
            or_empty(table_of(font, HHEA)),
            or_empty(table_of(font, MAXP)),
            table_of(font, NAME),
            table_of(font, OS2),
            table_of(font, POST),
        )
    } else {
        None
    }
}

fn or_none(t: Option<Vec<u8>>) -> (r: Vec<u8>)
    ensures
        r@ == or_empty(bytes_view(t)),
{
    match t {
        Some(b) => b,
        None => Vec::new(),
    }
}

/// What the bytes of a font file tell of its first font.
pub fn read_face(font: &[u8]) -> (r: Option<FaceFacts>)
    requires
        font@.len() <= FILE_LIMIT,
    ensures
        face_row(r) == told_by_file(font@),
{
    if !has_sound_header(font) {
        return None;
    }
    let tables: FaceTables = FaceTables {
        head: or_none(find_table(font, HEAD)),
        hhea: or_none(find_table(font, HHEA)),
        maxp: or_none(find_table(font, MAXP)),
        name: find_table(font, NAME),
        os2: find_table(font, OS2),
        post: find_table(font, POST),
    };
    read_tables(&tables)
}

/// The name records of a font file; none where it is no font.
pub open spec fn names_of(font: Seq<u8>) -> Seq<NameRow> {
    match told_by_file(font) {
        Some(f) => f.0,
        None => Seq::empty(),
    }
}

/// The weight of a font file.
pub open spec fn weight_of(font: Seq<u8>) -> u16 {
    match told_by_file(font) {
        Some(f) => match f.1 {
            Some(w) => w,
            None => NORMAL_WEIGHT,
        },
        None => NORMAL_WEIGHT,
    }
}

/// The font of a file is italic.
pub open spec fn is_italic_file(font: Seq<u8>) -> bool {
    match told_by_file(font) {
        Some(f) => f.2,
        None => false,
    }
}

// --- Names ---

/// A record has the number, and a text that is not empty.
pub open spec fn tells_name(row: NameRow, id: u16) -> bool {
    row.0 == id && row.1 is Some && row.1->0.len() > 0
}

/// The name with a number: the text of the first record that tells it, or nothing.
pub open spec fn is_name(rows: Seq<NameRow>, id: u16, name: Seq<char>) -> bool {
    ||| exists|k: int|
        0 <= k < rows.len() && tells_name(#[trigger] rows[k], id) && rows[k].1 == Some(name)
            && forall|j: int| 0 <= j < k ==> !tells_name(#[trigger] rows[j], id)
    ||| name.len() == 0 && forall|j: int| 0 <= j < rows.len() ==> !tells_name(#[trigger] rows[j], id)
}

/// The name with a number.
pub fn name_with(names: &Vec<NameRecord>, id: u16) -> (name: String)
    ensures
        is_name(name_rows(names@), id, name@),
{
    let n: usize = names.len();
    let ghost rows = name_rows(names@);
    for i in 0..n
        invariant
            n == names@.len(),
            rows == name_rows(names@),
            forall|j: int| 0 <= j < i ==> !tells_name(#[trigger] rows[j], id),
    {
        assert(rows[i as int] == (names@[i as int].0, text_view(names@[i as int].1)));
        if names[i].0 == id {
            match &names[i].1 {
                Some(t) => {
                    if chars_of(t.as_str()).len() > 0 {
                        let found: String = copy_of(t.as_str());
                        assert(tells_name(rows[i as int], id));
                        return found;
                    }
                },
                None => {},
            }
        }
    }
    let none: String = copy_of("");
    proof {
        reveal_strlit("");
        assert(none@ =~= Seq::<char>::empty());
    }
    none
}

/// The names that a font is known by: family, subfamily, full name and PostScript name.
pub struct NameIds {
    pub family: String,
    pub subfamily: String,
    pub full_name: String,
    pub postscript: String,
}

pub open spec fn are_name_ids(rows: Seq<NameRow>, ids: NameIds) -> bool {
    &&& is_name(rows, 1, ids.family@)
    &&& is_name(rows, 2, ids.subfamily@)
    &&& is_name(rows, 4, ids.full_name@)
    &&& is_name(rows, 6, ids.postscript@)
}

/// The names of a name table.
pub fn names_in(names: &Vec<NameRecord>) -> (ids: NameIds)
    ensures
        are_name_ids(name_rows(names@), ids),
{
    NameIds {
        family: name_with(names, 1),
        subfamily: name_with(names, 2),
        full_name: name_with(names, 4),
        postscript: name_with(names, 6),
    }
}

/// The name records of a font; none where it cannot be read.
fn read_names(data: &[u8]) -> (names: Vec<NameRecord>)
    requires
        data@.len() <= FILE_LIMIT,
    ensures
        name_rows(names@) == names_of(data@),
{
    match read_face(data) {
        Some(f) => f.names,
        None => {
            let none: Vec<NameRecord> = Vec::new();
            assert(name_rows(none@) =~= Seq::<NameRow>::empty());
            none
        },
    }
}

/// The names of a font; they are all empty where it cannot be read.
pub fn read_name_ids(data: &[u8]) -> (ids: NameIds)
    requires
        data@.len() <= FILE_LIMIT,
    ensures
        are_name_ids(names_of(data@), ids),
{
    names_in(&read_names(data))
}

/// The typographic family: the text of the first record with number sixteen, or the family
/// where there is no such text.
pub open spec fn is_typographic(rows: Seq<NameRow>, family: Seq<char>, name: Seq<char>) -> bool {
    ||| exists|k: int|
        0 <= k < rows.len() && (#[trigger] rows[k]).0 == 16 && (forall|j: int|
            0 <= j < k ==> (#[trigger] rows[j]).0 != 16) && name == match rows[k].1 {
            Some(t) => t,
            None => family,
        }
    ||| name == family && forall|j: int| 0 <= j < rows.len() ==> (#[trigger] rows[j]).0 != 16
}

/// The typographic family in a name table.
pub fn typographic_in(names: &Vec<NameRecord>, family: &str) -> (name: String)
    ensures
        is_typographic(name_rows(names@), family@, name@),
{
    let n: usize = names.len();
    let ghost rows = name_rows(names@);
    for i in 0..n
        invariant
            n == names@.len(),
            rows == name_rows(names@),
            forall|j: int| 0 <= j < i ==> (#[trigger] rows[j]).0 != 16,
    {
        assert(rows[i as int] == (names@[i as int].0, text_view(names@[i as int].1)));
        if names[i].0 == 16 {
            let r: String = match &names[i].1 {
                Some(t) => copy_of(t.as_str()),
                None => copy_of(family),
            };
            return r;
        }
    }
    copy_of(family)
}

/// The typographic family of a font.
pub fn read_typographic_family(data: &[u8], family: &str) -> (name: String)
    requires
        data@.len() <= FILE_LIMIT,
    ensures
        is_typographic(names_of(data@), family@, name@),
{
    typographic_in(&read_names(data), family)
}

/// The weight of a font that does not tell one.
pub const NORMAL_WEIGHT: u16 = 400;

/// The weight that a font is given.
pub fn weight_or_normal(found: Option<u16>) -> (w: u16)
    ensures
        w == match found {
            Some(v) => v,
            None => NORMAL_WEIGHT,
        },
{
    match found {
        Some(v) => v,
        None => NORMAL_WEIGHT,
    }
}

/// The weight of a font.
pub fn read_weight_class(data: &[u8]) -> (w: u16)
    requires
        data@.len() <= FILE_LIMIT,
    ensures
        w == weight_of(data@),
{
    match read_face(data) {
        Some(f) => weight_or_normal(f.weight),
        None => NORMAL_WEIGHT,
    }
}

/// Whether a font is italic; one that cannot be read is not.
pub fn read_italic(data: &[u8]) -> (r: bool)
    requires
        data@.len() <= FILE_LIMIT,
    ensures
        r == is_italic_file(data@),
{
    match read_face(data) {
        Some(f) => f.italic,
        None => false,
    }
}

// --- Kinds ---

/// The kind of a font.
#[derive(Clone, Copy, Debug, PartialEq, Eq, Structural)]
pub enum FontClass {
    Serif,
    Sans,
    Mono,
    Unknown,
}

/// The word for a kind of fonts.
pub open spec fn class_word(class: FontClass) -> Seq<char> {
    match class {
        FontClass::Serif => "serif"@,
        FontClass::Sans => "sans"@,
        FontClass::Mono => "mono"@,
        FontClass::Unknown => "unknown"@,
    }
}

/// The word for a kind of fonts.
pub fn font_class_str(class: FontClass) -> (s: &'static str)
    ensures
        s@ == class_word(class),
{
    match class {
        FontClass::Serif => "serif",
        FontClass::Sans => "sans",
        FontClass::Mono => "mono",
        FontClass::Unknown => "unknown",
    }
}

/// A character that stands for several letters which begin with an f.
pub open spec fn joins_letters(c: char) -> bool {
    0xFB00 <= c as u32 <= 0xFB04
}

/// Whether a character is a ligature.
pub fn is_ligature(c: char) -> (r: bool)
    ensures
        r == joins_letters(c),
{
    c as u32 >= 0xFB00 && c as u32 <= 0xFB04
}

// --- Labels ---

/// What a catalog knows of a font.
pub struct FontFacts {
    pub path: String,
    pub key: String,
    pub postscript_name: String,
    pub family_name: String,
    pub class: FontClass,
    pub variant_tag: String,
}

/// What a font file tells of its font.
pub struct FileFacts {
    pub names: NameIds,
    pub typographic: String,
    pub weight: u16,
    pub italic: bool,
}

/// All that a font file tells.
pub fn read_file_facts(data: &[u8]) -> (f: FileFacts)
    requires
        data@.len() <= FILE_LIMIT,
    ensures
        are_name_ids(names_of(data@), f.names),
        is_typographic(names_of(data@), f.names.family@, f.typographic@),
        f.weight == weight_of(data@),
        f.italic == is_italic_file(data@),
{
    let names: NameIds = read_name_ids(data);
    let typographic: String = read_typographic_family(data, names.family.as_str());
    FileFacts { names, typographic, weight: read_weight_class(data), italic: read_italic(data) }
}

/// The label of a sample.
pub struct LabelRecord {
    pub font_path: String,
    pub font_key: String,
    pub postscript_name: String,
    pub family_name: String,
    pub nid1_family: String,
    pub nid2_subfamily: String,
    pub nid4_full_name: String,
    pub nid16_family: String,
    pub weight_class: u16,
    pub weight_bucket: u16,
    pub italic: bool,
    pub font_class: String,
    pub variant_tag: String,
    pub char_str: String,
    pub char_code: u32,
    pub native_height: u32,
    pub aa_variant: String,
    pub is_ligature: bool,
}

/// The label of a character of a font, rendered from a height with a variant.
pub fn label(font: &FontFacts, file: &FileFacts, c: char, height: u32, variant: &str) -> (l:
    LabelRecord)
    ensures
        l.font_path@ == font.path@,
        l.font_key@ == font.key@,
        l.postscript_name@ == (if file.names.postscript@.len() > 0 {
            file.names.postscript@
        } else {
            font.postscript_name@
        }),
        l.family_name@ == font.family_name@,
        l.nid1_family@ == file.names.family@,
        l.nid2_subfamily@ == file.names.subfamily@,
        l.nid4_full_name@ == file.names.full_name@,
        l.nid16_family@ == file.typographic@,
        l.weight_class == file.weight,
        l.weight_bucket == file.weight / 100,
        l.italic == file.italic,
        l.font_class@ == class_word(font.class),
        l.variant_tag@ == font.variant_tag@,
        l.char_str@ == seq![c],
        l.char_code == c as u32,
        l.native_height == height,
        l.aa_variant@ == variant@,
        l.is_ligature == joins_letters(c),
{
    let postscript: &str = if chars_of(file.names.postscript.as_str()).len() > 0 {
        file.names.postscript.as_str()
    } else {
        font.postscript_name.as_str()
    };
    let mut one: Vec<char> = Vec::new();
    one.push(c);
    assert(one@ =~= seq![c]);
    LabelRecord {
        font_path: copy_of(font.path.as_str()),
        font_key: copy_of(font.key.as_str()),
        postscript_name: copy_of(postscript),
        family_name: copy_of(font.family_name.as_str()),
        nid1_family: copy_of(file.names.family.as_str()),
        nid2_subfamily: copy_of(file.names.subfamily.as_str()),
        nid4_full_name: copy_of(file.names.full_name.as_str()),
        nid16_family: copy_of(file.typographic.as_str()),
        weight_class: file.weight,
        weight_bucket: file.weight / 100,
        italic: file.italic,
        font_class: copy_of(font_class_str(font.class)),
        variant_tag: copy_of(font.variant_tag.as_str()),
        char_str: text_of(&one),
        char_code: c as u32,
        native_height: height,
        aa_variant: copy_of(variant),
        is_ligature: is_ligature(c),
    }
}

/// A name table tells one name for a number.
pub proof fn law_name_unique(rows: Seq<NameRow>, id: u16, a: Seq<char>, b: Seq<char>)
    requires
        is_name(rows, id, a),
        is_name(rows, id, b),
    ensures
        a == b,
{
    if a.len() > 0 && b.len() > 0 {
        let i = choose|k: int|
            0 <= k < rows.len() && tells_name(#[trigger] rows[k], id) && rows[k].1 == Some(a)
                && forall|j: int| 0 <= j < k ==> !tells_name(#[trigger] rows[j], id);
        let k = choose|k: int|
            0 <= k < rows.len() && tells_name(#[trigger] rows[k], id) && rows[k].1 == Some(b)
                && forall|j: int| 0 <= j < k ==> !tells_name(#[trigger] rows[j], id);
        assert(i == k);
    } else {
        assert(a =~= b);
    }
}

/// Four bytes make a number the first of which counts most: adding one to the last adds one,
/// and each byte before counts for 256 times as much as the one behind it.
pub proof fn law_number(data: Seq<u8>, at: int, i: int, v: u8)
    requires
        0 <= at,
        at + 4 <= data.len(),
        0 <= i < 4,
    ensures
        0 <= number_at(data, at) < 0x1_0000_0000,
        number_at(data.update(at + 3 - i, v), at) - number_at(data, at) == (v - data[at + 3 - i])
            * (if i == 0 {
            1int
        } else if i == 1 {
            256
        } else if i == 2 {
            65536
        } else {
            16777216
        }),
        (forall|k: int| 0 <= k < 4 ==> #[trigger] data[at + k] == 0) ==> number_at(data, at) == 0,
{
    assert(data[at + 0] == data[at]);
}

/// A table is what the last entry with its tag tells, of the entries whose end can be told: the
/// bytes from the beginning on for as long as it is, if they lie in the file. Without such an
/// entry there is none.
pub proof fn law_table(font: Seq<u8>, tag: u32, n: int, k: int)
    requires
        0 <= k <= n,
        forall|j: int|
            k <= j < n && #[trigger] listed_table(font, j) is Some ==> ({
                let e = listed_table(font, j)->0;
                e.0 != tag || e.1 + e.2 > usize::MAX
            }),
        k > 0 ==> listed_table(font, k - 1) is Some && ({
            let e = listed_table(font, k - 1)->0;
            e.0 == tag && e.1 + e.2 <= usize::MAX
        }),
    ensures
        k == 0 ==> table_among(font, tag, n) is None,
        k > 0 ==> ({
            let e = listed_table(font, k - 1)->0;
            let from = e.1;
            let len = e.2;
            &&& table_among(font, tag, n) is Some <==> from + len <= font.len()
            &&& table_among(font, tag, n) is Some ==> table_among(font, tag, n)->0.len() == len
                && forall|i: int|
                0 <= i < len ==> #[trigger] table_among(font, tag, n)->0[i] == font[from + i]
        }),
    decreases n,
{
    if n > k {
        law_table(font, tag, n - 1, k);
    }
}

/// The tables that are read are those with the tags `head`, `hhea`, `maxp`, `name`, `OS/2` and
/// `post`, and a file of several fonts begins with `ttcf`.
pub proof fn law_tags(bytes: Seq<u8>)
    requires
        bytes.len() == 4,
    ensures
        number_at(bytes, 0) == HEAD <==> bytes == seq![104u8, 101u8, 97u8, 100u8],
        number_at(bytes, 0) == HHEA <==> bytes == seq![104u8, 104u8, 101u8, 97u8],
        number_at(bytes, 0) == MAXP <==> bytes == seq![109u8, 97u8, 120u8, 112u8],
        number_at(bytes, 0) == NAME <==> bytes == seq![110u8, 97u8, 109u8, 101u8],
        number_at(bytes, 0) == OS2 <==> bytes == seq![79u8, 83u8, 47u8, 50u8],
        number_at(bytes, 0) == POST <==> bytes == seq![112u8, 111u8, 115u8, 116u8],
        number_at(bytes, 0) == COLLECTION <==> bytes == seq![116u8, 116u8, 99u8, 102u8],
{
    lemma_tag(bytes, seq![104u8, 101u8, 97u8, 100u8], HEAD);
    lemma_tag(bytes, seq![104u8, 104u8, 101u8, 97u8], HHEA);
    lemma_tag(bytes, seq![109u8, 97u8, 120u8, 112u8], MAXP);
    lemma_tag(bytes, seq![110u8, 97u8, 109u8, 101u8], NAME);
    lemma_tag(bytes, seq![79u8, 83u8, 47u8, 50u8], OS2);
    lemma_tag(bytes, seq![112u8, 111u8, 115u8, 116u8], POST);
    lemma_tag(bytes, seq![116u8, 116u8, 99u8, 102u8], COLLECTION);
}

proof fn lemma_tag(a: Seq<u8>, b: Seq<u8>, tag: u32)
    requires
        a.len() == 4,
        b.len() == 4,
        number_at(b, 0) == tag,
    ensures
        number_at(a, 0) == tag <==> a == b,
{
    if number_at(a, 0) == tag {
        assert(a[0] == b[0]);
        assert(a[1] == b[1]);
        assert(a[2] == b[2]);
        assert(a[3] == b[3]);
        assert(a =~= b);
    }
}

/// The typographic family is the text of the first record with number sixteen. Where that has
/// no text, or there is no such record, it is the family.
pub proof fn law_typographic(rows: Seq<NameRow>, family: Seq<char>, name: Seq<char>, k: int)
    requires
        is_typographic(rows, family, name),
        0 <= k <= rows.len(),
        forall|j: int| 0 <= j < k ==> (#[trigger] rows[j]).0 != 16,
        k < rows.len() ==> rows[k].0 == 16,
    ensures
        k == rows.len() ==> name == family,
        k < rows.len() && rows[k].1 is None ==> name == family,
        k < rows.len() && rows[k].1 is Some ==> name == rows[k].1->0,
{
}

/// The family, the subfamily, the full name and the PostScript name are the first texts that
/// are not empty under the numbers one, two, four and six. A name that is empty has no such
/// text.
pub proof fn law_name_ids(rows: Seq<NameRow>, ids: NameIds, k: int)
    requires
        are_name_ids(rows, ids),
        0 <= k < rows.len(),
        rows[k].1 is Some,
        rows[k].1->0.len() > 0,
        forall|j: int|
            0 <= j < k ==> (#[trigger] rows[j]).0 != rows[k].0 || rows[j].1 is None
                || rows[j].1->0.len() == 0,
    ensures
        rows[k].0 == 1 ==> ids.family@ == rows[k].1->0,
        rows[k].0 == 2 ==> ids.subfamily@ == rows[k].1->0,
        rows[k].0 == 4 ==> ids.full_name@ == rows[k].1->0,
        rows[k].0 == 6 ==> ids.postscript@ == rows[k].1->0,
{
    assert(tells_name(rows[k], rows[k].0));
    assert forall|j: int| 0 <= j < k implies !tells_name(#[trigger] rows[j], rows[k].0) by {}
    assert(is_name(rows, rows[k].0, rows[k].1->0));
    if rows[k].0 == 1 {
        law_name_unique(rows, 1, ids.family@, rows[k].1->0);
    }
    if rows[k].0 == 2 {
        law_name_unique(rows, 2, ids.subfamily@, rows[k].1->0);
    }
    if rows[k].0 == 4 {
        law_name_unique(rows, 4, ids.full_name@, rows[k].1->0);
    }
    if rows[k].0 == 6 {
        law_name_unique(rows, 6, ids.postscript@, rows[k].1->0);
    }
}

/// A file that is no font has no names, is of weight 400 and is not italic; a font that tells
/// no weight is of weight 400 too.
pub proof fn law_untold(font: Seq<u8>)
    ensures
        told_by_file(font) is None ==> names_of(font).len() == 0 && weight_of(font) == 400
            && !is_italic_file(font),
        told_by_file(font) is Some ==> ({
            let row = told_by_file(font)->0;
            let weight = row.1;
            &&& names_of(font) == row.0
            &&& weight is None ==> weight_of(font) == 400
            &&& weight is Some ==> weight_of(font) == weight->0
            &&& is_italic_file(font) == row.2
        }),
        !header_sound(font) ==> told_by_file(font) is None,
{
}


/// A header cannot be read only where a file of twelve bytes at least begins with `ttcf` and the
/// number that follows eight bytes from the beginning counts so many fonts that the offsets of
/// all of them, four bytes each behind the first twelve, would reach beyond the largest offset.
pub proof fn law_header(font: Seq<u8>)
    ensures
        font.len() < 12 ==> header_sound(font),
        font.len() >= 4 && font.take(4) != seq![116u8, 116u8, 99u8, 102u8] ==> header_sound(font),
        font.len() >= 12 && font.take(4) == seq![116u8, 116u8, 99u8, 102u8] ==> (header_sound(font)
            <==> 12 + 4 * number_at(font, 8) < 0x1_0000_0000),
{
    if font.len() >= 4 {
        let head = font.take(4);
        law_tags(head);
        assert(head[0] == font[0] && head[1] == font[1] && head[2] == font[2] && head[3] == font[3]);
        assert(number_at(head, 0) == number_at(font, 0));
    }
}


} // verus!
