//! Command-line settings and page ranges.

use std::collections::HashSet;
use vstd::prelude::*;
use vstd::string::*;
use crate::char_render::RenderParams;
use crate::features::{AaVariant, NORM_H};
use crate::paths::{file_stem, file_stem_of, join, join_path, replace_file_name, with_file_name};
use crate::text::{
    chars_of, copy_of, decimal, joined, law_split_joined, lemma_unsigned_value,
    parse_unsigned, slice_of, split,
    split_chars, text_of, to_decimal, trim, trimmed, unsigned_value, views,
};

verus! {

/// The settings that decide what a run does.
pub struct Args {
    pub input: Option<String>,
    pub output: Option<String>,
    pub audit: Option<String>,
    pub index: bool,
    pub index_path: Option<String>,
    pub train_lda: bool,
    pub test: Option<String>,
    pub render_ref_chars: Option<String>,
    pub weight_explicit: Vec<String>,
    pub render_scale: u32,
    pub render_aa: String,
    pub render_binarize: Option<u8>,
}

/// The text of an optional string.
pub open spec fn text(s: Option<String>) -> Option<Seq<char>> {
    match s {
        Some(t) => Some(t@),
        None => None,
    }
}

impl Args {
    /// How reference characters are rendered. An unknown anti-aliasing name stands for the
    /// native one, and a threshold of zero for no binarisation.
    pub fn render_params(&self) -> (p: RenderParams)
        ensures
            p.height == NORM_H,
            p.render_scale == self.render_scale,
            exists|aa: Option<AaVariant>| #[trigger]
                AaVariant::is_parse(crate::text::in_lower_case(self.render_aa@), aa) && p.aa == match aa {
                    Some(v) => v,
                    None => AaVariant::Native,
                },
            p.binarize_threshold == if self.render_binarize == Some(0u8) {
                None
            } else {
                self.render_binarize
            },
    {
        let parsed: Option<AaVariant> = AaVariant::parse(self.render_aa.as_str());
        let aa: AaVariant = match parsed {
            Some(v) => v,
            None => AaVariant::Native,
        };
        let binarize_threshold: Option<u8> = match self.render_binarize {
            Some(v) => if v > 0 {
                Some(v)
            } else {
                None
            },
            None => None,
        };
        RenderParams { height: NORM_H, render_scale: self.render_scale, aa, binarize_threshold }
    }

    /// Where the audit log goes: into the audit directory, or else beside the output file,
    /// under the stem of its name.
    pub fn audit_log_path(&self) -> (path: String)
        requires
            self.audit is Some || self.output is Some,
        ensures
            path@ == match text(self.audit) {
                Some(dir) => join_path(dir, "audit.json"@),
                None => with_file_name(
                    self.output->0@,
                    file_stem(self.output->0@) + ".audit.json"@,
                ),
            },
    {
        match &self.audit {
            Some(dir) => join(dir.as_str(), "audit.json"),
            None => match &self.output {
                Some(out) => {
                    let stem: String = file_stem_of(out.as_str());
                    let name: String = joined(stem.as_str(), ".audit.json");
                    replace_file_name(out.as_str(), name.as_str())
                },
                None => String::new(),
            },
        }
    }

    /// The directory for segmentation diagnostics: the audit directory, if there is one.
    pub fn diag_seg_dir(&self) -> (dir: Option<&str>)
        ensures
            dir is Some <==> self.audit is Some,
            dir is Some ==> dir->0@ == self.audit->0@,
    {
        match &self.audit {
            Some(d) => Some(d.as_str()),
            None => None,
        }
    }

    /// The path of the character index: the given one, or the one below the home directory.
    pub fn resolved_index_path(&self, home: Option<&str>) -> (path: String)
        ensures
            path@ == match text(self.index_path) {
                Some(p) => p,
                None => {
                    let h = match home {
                        Some(h) => h@,
                        None => "/tmp"@,
                    };
                    join_path(join_path(join_path(h, ".cache"@), "unscan"@), "char-index.bin"@)
                },
            },
    {
        match &self.index_path {
            Some(p) => copy_of(p.as_str()),
            None => {
                let h: &str = match home {
                    Some(h) => h,
                    None => "/tmp",
                };
                let cache: String = join(h, ".cache");
                let dir: String = join(cache.as_str(), "unscan");
                join(dir.as_str(), "char-index.bin")
            },
        }
    }

    /// The vector PDF that holds the ground truth.
    pub fn gt_vector_pdf(&self) -> (path: Option<&str>)
        ensures
            path is Some <==> self.test is Some,
            path is Some ==> path->0@ == self.test->0@,
    {
        match &self.test {
            Some(p) => Some(p.as_str()),
            None => None,
        }
    }

    /// Whether the full audit is written.
    pub fn full_audit(&self) -> (r: bool)
        ensures
            r == self.audit is Some,
    {
        self.audit.is_some()
    }

    /// The settings ask for work that needs no input file.
    pub open spec fn needs_no_input(&self) -> bool {
        self.index || self.render_ref_chars is Some || self.weight_explicit@.len() > 0
            || self.train_lda
    }

    /// Checks that input and output are given where the work needs them: a run against
    /// ground truth needs no output.
    pub fn validate(&self) -> (r: Result<(), String>)
        ensures
            r is Ok <==> self.needs_no_input() || (self.input is Some && (self.test is Some
                || self.output is Some)),
            r is Err ==> r->Err_0@ == if self.input is None {
                "Input file required (or use --index)"@
            } else {
                "Output path required (use -o / --output)"@
            },
    {
        if self.index || self.render_ref_chars.is_some() || self.weight_explicit.len() > 0
            || self.train_lda {
            return Ok(());
        }
        if self.input.is_none() {
            return Err(copy_of("Input file required (or use --index)"));
        }
        if self.test.is_some() {
            return Ok(());
        }
        if self.output.is_none() {
            return Err(copy_of("Output path required (use -o / --output)"));
        }
        Ok(())
    }
}

// --- Page ranges ---

/// The position of the first dash, if there is one.
pub open spec fn first_dash(s: Seq<char>) -> Option<int> {
    if exists|i: int| is_first_dash(s, i) {
        Some(choose|i: int| is_first_dash(s, i))
    } else {
        None
    }
}

pub open spec fn is_first_dash(s: Seq<char>, i: int) -> bool {
    0 <= i < s.len() && s[i] == '-' && forall|j: int| 0 <= j < i ==> #[trigger] s[j] != '-'
}

/// The pages, from first to last, that one entry of a page specification denotes, or the
/// message that rejects it.
pub open spec fn page_range(part: Seq<char>) -> Result<(int, int), Seq<char>> {
    match first_dash(part) {
        Some(i) => {
            let a = part.subrange(0, i);
            let b = part.subrange(i + 1, part.len() as int);
            match (
                unsigned_value(trim(a), usize::MAX as int),
                unsigned_value(trim(b), usize::MAX as int),
            ) {
                (None, _) => Err("bad page number: "@ + a),
                (Some(_), None) => Err("bad page number: "@ + b),
                (Some(start), Some(end)) => if start == 0 || end == 0 {
                    Err("page numbers are 1-indexed"@)
                } else if start > end {
                    Err(
                        "invalid range: "@ + decimal(start as nat) + "-"@ + decimal(end as nat),
                    )
                } else {
                    Ok((start, end))
                },
            }
        },
        None => match unsigned_value(part, usize::MAX as int) {
            None => Err("bad page number: "@ + part),
            Some(p) => if p == 0 {
                Err("page numbers are 1-indexed"@)
            } else {
                Ok((p, p))
            },
        },
    }
}

/// The pages from `a` to `b`.
pub open spec fn pages_between(a: int, b: int) -> Set<usize> {
    Set::new(|p: usize| a <= p <= b)
}

/// What the first `n` entries of a page specification denote together; the first entry
/// that is rejected rejects the whole.
pub open spec fn pages_of(parts: Seq<Seq<char>>, n: int) -> Result<Set<usize>, Seq<char>>
    decreases n,
{
    if n <= 0 {
        Ok(Set::empty())
    } else {
        match pages_of(parts, n - 1) {
            Err(e) => Err(e),
            Ok(set) => {
                let part = trim(parts[n - 1]);
                if part.len() == 0 {
                    Ok(set)
                } else {
                    match page_range(part) {
                        Err(e) => Err(e),
                        Ok((a, b)) => Ok(set.union(pages_between(a, b))),
                    }
                }
            },
        }
    }
}

/// What a page specification denotes: comma-separated page numbers and ranges, counted
/// from one. One that denotes no page is rejected.
pub open spec fn pages_spec(spec: Seq<char>) -> Result<Set<usize>, Seq<char>> {
    let parts = split(spec, ',');
    match pages_of(parts, parts.len() as int) {
        Err(e) => Err(e),
        Ok(set) => if set == Set::<usize>::empty() {
            Err("empty page specification"@)
        } else {
            Ok(set)
        },
    }
}

proof fn lemma_pages_joined(a: Seq<Seq<char>>, b: Seq<Seq<char>>, n: int)
    requires
        0 <= n <= b.len(),
        pages_of(a, a.len() as int) is Ok,
        pages_of(b, n) is Ok,
    ensures
        pages_of(a + b, a.len() + n) == Ok::<Set<usize>, Seq<char>>(
            pages_of(a, a.len() as int)->Ok_0.union(pages_of(b, n)->Ok_0),
        ),
    decreases n,
{
    let first = pages_of(a, a.len() as int)->Ok_0;
    if n == 0 {
        lemma_pages_prefix(a, b, a.len() as int);
        assert(first.union(Set::empty()) =~= first);
    } else {
        assert(pages_of(b, n - 1) is Ok);
        lemma_pages_joined(a, b, n - 1);
        assert((a + b)[a.len() + n - 1] == b[n - 1]);
        let before = pages_of(b, n - 1)->Ok_0;
        if trim(b[n - 1]).len() > 0 {
            let (from, to) = page_range(trim(b[n - 1]))->Ok_0;
            assert(first.union(before).union(pages_between(from, to)) =~= first.union(
                before.union(pages_between(from, to)),
            ));
        }
    }
}

proof fn lemma_pages_prefix(a: Seq<Seq<char>>, b: Seq<Seq<char>>, n: int)
    requires
        0 <= n <= a.len(),
    ensures
        pages_of(a + b, n) == pages_of(a, n),
    decreases n,
{
    if n > 0 {
        lemma_pages_prefix(a, b, n - 1);
        assert((a + b)[n - 1] == a[n - 1]);
    }
}

/// Two page specifications with a comma between them denote the pages of both, in either order.
pub proof fn law_pages_joined(s: Seq<char>, t: Seq<char>)
    requires
        pages_spec(s) is Ok,
        pages_spec(t) is Ok,
    ensures
        pages_spec(s + ","@ + t) == Ok::<Set<usize>, Seq<char>>(
            pages_spec(s)->Ok_0.union(pages_spec(t)->Ok_0),
        ),
        pages_spec(t + ","@ + s) == pages_spec(s + ","@ + t),
{
    lemma_pages_in_order(s, t);
    lemma_pages_in_order(t, s);
    assert(pages_spec(s)->Ok_0.union(pages_spec(t)->Ok_0) =~= pages_spec(t)->Ok_0.union(
        pages_spec(s)->Ok_0,
    ));
}

proof fn lemma_pages_in_order(s: Seq<char>, t: Seq<char>)
    requires
        pages_spec(s) is Ok,
        pages_spec(t) is Ok,
    ensures
        pages_spec(s + ","@ + t) == Ok::<Set<usize>, Seq<char>>(
            pages_spec(s)->Ok_0.union(pages_spec(t)->Ok_0),
        ),
{
    reveal_strlit(",");
    assert(s + ","@ + t =~= s.push(',') + t);
    law_split_joined(s, t, ',');
    let a = split(s, ',');
    let b = split(t, ',');
    lemma_pages_joined(a, b, b.len() as int);
    let both = pages_spec(s)->Ok_0.union(pages_spec(t)->Ok_0);
    if both == Set::<usize>::empty() {
        assert(pages_spec(s)->Ok_0 =~= Set::<usize>::empty()) by {
            assert forall|p: usize| !pages_spec(s)->Ok_0.contains(p) by {
                assert(!both.contains(p));
            }
        }
    }
}

fn parse_range(part: &Vec<char>) -> (r: Result<(usize, usize), String>)
    ensures
        match page_range(part@) {
            Ok((a, b)) => r is Ok && r->Ok_0.0 == a && r->Ok_0.1 == b && 0 < a <= b,
            Err(e) => r is Err && r->Err_0@ == e,
        },
{
    let n: usize = part.len();
    let mut i: usize = 0;
    while i < n && part[i] != '-'
        invariant
            n == part@.len(),
            i <= n,
            forall|j: int| 0 <= j < i ==> #[trigger] part@[j] != '-',
        decreases n - i,
    {
        i = i + 1;
    }
    let bad: String = copy_of("bad page number: ");
    let max: u64 = usize::MAX as u64;
    if i < n {
        proof {
            assert(is_first_dash(part@, i as int));
            let k = choose|k: int| is_first_dash(part@, k);
            assert(k == i) by {
                if k < i {
                    assert(part@[k] != '-');
                }
                if i < k {
                    assert(part@[i as int] != '-');
                }
            }
        }
        let a: Vec<char> = slice_of(part, 0, i);
        let b: Vec<char> = slice_of(part, i + 1, n);
        let start: u64 = match parse_unsigned(&trimmed(&a), max) {
            Some(v) => v,
            None => {
                return Err(joined(bad.as_str(), text_of(&a).as_str()));
            },
        };
        let end: u64 = match parse_unsigned(&trimmed(&b), max) {
            Some(v) => v,
            None => {
                return Err(joined(bad.as_str(), text_of(&b).as_str()));
            },
        };
        if start == 0 || end == 0 {
            return Err(copy_of("page numbers are 1-indexed"));
        }
        if start > end {
            let mut msg: String = copy_of("invalid range: ");
            msg.append(text_of(&to_decimal(start)).as_str());
            msg.append("-");
            msg.append(text_of(&to_decimal(end)).as_str());
            return Err(msg);
        }
        Ok((start as usize, end as usize))
    } else {
        assert(first_dash(part@) is None) by {
            assert forall|k: int| !is_first_dash(part@, k) by {
                if 0 <= k < part@.len() {
                    assert(part@[k] != '-');
                }
            }
        }
        match parse_unsigned(part, max) {
            None => Err(joined(bad.as_str(), text_of(part).as_str())),
            Some(p) => if p == 0 {
                Err(copy_of("page numbers are 1-indexed"))
            } else {
                Ok((p as usize, p as usize))
            },
        }
    }
}

/// Parses a page specification such as `1,3,5` or `2-4,7` into the set of its pages.
pub fn parse_pages(spec: &str) -> (r: Result<HashSet<usize>, String>)
    ensures
        match pages_spec(spec@) {
            Ok(set) => r is Ok && r->Ok_0@ == set,
            Err(e) => r is Err && r->Err_0@ == e,
        },
{
    broadcast use vstd::std_specs::hash::group_hash_axioms;

    let mut set: HashSet<usize> = HashSet::new();
    let parts: Vec<Vec<char>> = split_chars(&chars_of(spec), ',');
    let ghost all = split(spec@, ',');
    let n: usize = parts.len();
    let mut any: bool = false;
    let mut i: usize = 0;
    while i < n
        invariant
            n == parts@.len(),
            views(parts@) == all,
            all == split(spec@, ','),
            i <= n,
            pages_of(all, i as int) == Ok::<Set<usize>, Seq<char>>(set@),
            any <==> set@ != Set::<usize>::empty(),
        decreases n - i,
    {
        let part: Vec<char> = trimmed(&parts[i]);
        assert(part@ == trim(all[i as int]));
        if part.len() > 0 {
            match parse_range(&part) {
                Err(e) => {
                    proof {
                        lemma_pages_stop(all, i + 1, n as int);
                    }
                    return Err(e);
                },
                Ok((a, b)) => {
                    let ghost before = set@;
                    let mut p: usize = a;
                    set.insert(p);
                    assert(set@ =~= before.union(pages_between(a as int, a as int)));
                    while p < b
                        invariant
                            a <= p <= b,
                            set@ == before.union(pages_between(a as int, p as int)),
                        decreases b - p,
                    {
                        p = p + 1;
                        set.insert(p);
                        assert(set@ =~= before.union(pages_between(a as int, p as int)));
                    }
                    any = true;
                    assert(set@.contains(a));
                },
            }
        }
        i = i + 1;
    }
    if !any {
        return Err(copy_of("empty page specification"));
    }
    Ok(set)
}

/// A rejected entry rejects every longer list.
proof fn lemma_pages_stop(parts: Seq<Seq<char>>, k: int, n: int)
    requires
        0 <= k <= n,
        pages_of(parts, k) is Err,
    ensures
        pages_of(parts, n) == pages_of(parts, k),
    decreases n - k,
{
    if k < n {
        lemma_pages_stop(parts, k, n - 1);
    }
}

/// Pages are counted from one: no accepted specification denotes page zero.
pub proof fn law_pages_positive(spec: Seq<char>)
    ensures
        pages_spec(spec) matches Ok(set) ==> !set.contains(0usize),
{
    let parts = split(spec, ',');
    lemma_pages_positive(parts, parts.len() as int);
}

proof fn lemma_pages_positive(parts: Seq<Seq<char>>, n: int)
    ensures
        pages_of(parts, n) matches Ok(set) ==> !set.contains(0usize),
    decreases n,
{
    if n > 0 {
        lemma_pages_positive(parts, n - 1);
        let part = trim(parts[n - 1]);
        crate::text::lemma_unsigned_value(part, usize::MAX as int);
        if first_dash(part) is Some {
            let a = trim(part.subrange(0, first_dash(part)->0));
            crate::text::lemma_unsigned_value(a, usize::MAX as int);
        }
    }
}

/// An entry with a dash denotes the pages from the number before the first dash to the one
/// behind it, where neither is zero and they do not fall. One without a dash denotes the page
/// with its number. All else is rejected.
pub proof fn law_page_range(part: Seq<char>, i: int)
    requires
        0 <= i <= part.len(),
        forall|j: int| 0 <= j < i ==> #[trigger] part[j] != '-',
        i < part.len() ==> part[i] == '-',
    ensures
        i < part.len() ==> ({
            let from = unsigned_value(trim(part.take(i)), usize::MAX as int);
            let to = unsigned_value(trim(part.skip(i + 1)), usize::MAX as int);
            &&& page_range(part) is Ok <==> from is Some && to is Some && 1 <= from->0 <= to->0
            &&& page_range(part) is Ok ==> page_range(part)->Ok_0 == (from->0, to->0)
        }),
        i == part.len() ==> ({
            let page = unsigned_value(part, usize::MAX as int);
            &&& page_range(part) is Ok <==> page is Some && page->0 >= 1
            &&& page_range(part) is Ok ==> page_range(part)->Ok_0 == (page->0, page->0)
        }),
{
    lemma_unsigned_value(part, usize::MAX as int);
    if i < part.len() {
        assert(is_first_dash(part, i));
        let k = choose|k: int| is_first_dash(part, k);
        assert(is_first_dash(part, k));
        assert(k == i) by {
            if k < i {
                assert(part[k] != '-');
            }
            if i < k {
                assert(part[i] != '-');
            }
        }
        assert(part.take(i) =~= part.subrange(0, i));
        assert(part.skip(i + 1) =~= part.subrange(i + 1, part.len() as int));
        lemma_unsigned_value(trim(part.take(i)), usize::MAX as int);
        lemma_unsigned_value(trim(part.skip(i + 1)), usize::MAX as int);
    } else {
        assert(forall|k: int| !is_first_dash(part, k));
    }
}

proof fn lemma_pages_members(parts: Seq<Seq<char>>, n: int, p: usize)
    requires
        0 <= n <= parts.len(),
    ensures
        pages_of(parts, n) is Ok <==> forall|i: int|
            0 <= i < n ==> trim(#[trigger] parts[i]).len() == 0 || page_range(trim(parts[i])) is Ok,
        pages_of(parts, n) is Ok ==> (pages_of(parts, n)->Ok_0.contains(p) <==> exists|i: int|
            0 <= i < n && trim(#[trigger] parts[i]).len() > 0 && ({
                let r = page_range(trim(parts[i]))->Ok_0;
                r.0 <= p <= r.1
            })),
    decreases n,
{
    if n > 0 {
        lemma_pages_members(parts, n - 1, p);
        let last = parts[n - 1];
        if pages_of(parts, n) is Ok {
            let set = pages_of(parts, n)->Ok_0;
            let before = pages_of(parts, n - 1)->Ok_0;
            if before.contains(p) {
                let i = choose|i: int|
                    0 <= i < n - 1 && trim(#[trigger] parts[i]).len() > 0 && ({
                        let r = page_range(trim(parts[i]))->Ok_0;
                        r.0 <= p <= r.1
                    });
                assert(set.contains(p));
                assert(trim(parts[i]).len() > 0);
            }
        }
        assert(trim(parts[n - 1]) == trim(last));
    }
}

/// A page specification is accepted if none of its entries is rejected and it denotes a page at
/// all. A page is among those that it denotes exactly if it lies in the range of an entry.
pub proof fn law_pages_members(spec: Seq<char>, p: usize)
    ensures
        ({
            let parts = split(spec, ',');
            &&& pages_spec(spec) is Ok ==> forall|i: int|
                0 <= i < parts.len() ==> trim(#[trigger] parts[i]).len() == 0 || page_range(
                    trim(parts[i]),
                ) is Ok
            &&& pages_spec(spec) is Ok ==> (pages_spec(spec)->Ok_0.contains(p) <==> exists|i: int|
                0 <= i < parts.len() && trim(#[trigger] parts[i]).len() > 0 && ({
                    let r = page_range(trim(parts[i]))->Ok_0;
                    r.0 <= p <= r.1
                }))
            &&& (forall|i: int|
                0 <= i < parts.len() ==> trim(#[trigger] parts[i]).len() == 0 || page_range(
                    trim(parts[i]),
                ) is Ok) && (exists|i: int|
                0 <= i < parts.len() && trim(#[trigger] parts[i]).len() > 0 && ({
                    let r = page_range(trim(parts[i]))->Ok_0;
                    r.0 <= p <= r.1
                })) ==> pages_spec(spec) is Ok
        }),
{
    let parts = split(spec, ',');
    lemma_pages_members(parts, parts.len() as int, p);
}


} // verus!
