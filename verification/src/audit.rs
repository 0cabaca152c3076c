//! Records of the audit log, and where its images are kept.

use vstd::prelude::*;
use crate::paths::{
    file_name, file_name_of, file_stem, file_stem_of, join, join_path, parent, parent_of,
};
use crate::text::{chars_of, ends_with, has_suffix, joined, slice_of, text_of};

verus! {

/// How one word was cut into characters.
#[derive(Clone, Debug)]
pub struct WordSegSummary {
    pub word_text: String,
    pub source_word_idx: usize,
    pub image_w: u32,
    pub image_h: u32,
    pub n_chars_expected: u32,
    pub n_segments_produced: u32,
    pub mismatch: bool,
    /// Columns of the cuts in white space.
    pub ws_splits: Vec<u32>,
    /// Columns of the cuts along seams.
    pub seam_splits: Vec<u32>,
    /// For each seam, by its column, the points it runs through.
    pub seam_paths: Vec<(u32, Vec<(u32, u32)>)>,
}

/// A rectangle on a page.
#[derive(Clone, Copy, Debug, PartialEq, Eq, Structural)]
pub struct BBox {
    pub x: u32,
    pub y: u32,
    pub width: u32,
    pub height: u32,
}

/// What became of a line of text.
#[derive(Clone, Copy, Debug, PartialEq, Eq, Structural)]
pub enum Decision {
    Vectorized,
    KeptRaster,
}

/// A geometric element of a page.
#[derive(Clone, Debug)]
pub struct GeometryEntry {
    pub page: usize,
    pub kind: &'static str,
    pub bbox: BBox,
}

/// Counts for one page.
#[derive(Clone, Copy, Debug, PartialEq, Eq, Structural)]
pub struct PageSummary {
    pub page: usize,
    pub width_px: u32,
    pub height_px: u32,
    pub lines_vectorized: u32,
    pub lines_kept_raster: u32,
    pub geometry_elements: u32,
    pub raster_fragments: u32,
}

/// The directory for the images of an audit, beside its log.
pub struct AuditImageDir {
    pub dir: String,
}

/// A stem without the audit marker at its end.
pub open spec fn without_marker(stem: Seq<char>) -> Seq<char> {
    if ends_with(stem, ".audit"@) {
        stem.subrange(0, stem.len() - ".audit"@.len())
    } else {
        stem
    }
}

/// The image directory for an audit log: beside the log, named after its stem.
pub open spec fn image_dir(log_path: Seq<char>) -> Seq<char> {
    let base = match parent(log_path) {
        Some(p) => p,
        None => "."@,
    };
    join_path(base, without_marker(file_stem(log_path)) + ".audit"@)
}

impl AuditImageDir {
    /// The image directory for the audit log at `audit_json_path`. A stem that already ends
    /// in the audit marker does not get a second one.
    pub fn from_audit_path(audit_json_path: &str) -> (r: AuditImageDir)
        ensures
            r.dir@ == image_dir(audit_json_path@),
    {
        let stem: String = file_stem_of(audit_json_path);
        let chars: Vec<char> = chars_of(stem.as_str());
        let marker: Vec<char> = chars_of(".audit");
        let base: String = if has_suffix(&chars, &marker) {
            text_of(&slice_of(&chars, 0, chars.len() - marker.len()))
        } else {
            stem
        };
        let name: String = joined(base.as_str(), ".audit");
        let dir: String = match parent_of(audit_json_path) {
            Some(p) => join(p.as_str(), name.as_str()),
            None => join(".", name.as_str()),
        };
        AuditImageDir { dir }
    }

    /// The name by which the log refers to the directory: its last component.
    pub fn rel_dir(&self) -> (r: String)
        ensures
            r@ == match file_name(self.dir@) {
                Some(name) => name,
                None => Seq::empty(),
            },
    {
        match file_name_of(self.dir.as_str()) {
            Some(name) => name,
            None => String::new(),
        }
    }
}

/// The marker is taken off a stem once: a stem with the marker behind it gives the stem, and
/// one that does not end in the marker stays as it is.
pub proof fn law_without_marker(stem: Seq<char>)
    ensures
        without_marker(stem + seq!['.', 'a', 'u', 'd', 'i', 't']) == stem,
        without_marker(stem) == stem || without_marker(stem) + seq!['.', 'a', 'u', 'd', 'i', 't']
            == stem,
{
    reveal_strlit(".audit");
    let mark = seq!['.', 'a', 'u', 'd', 'i', 't'];
    assert(".audit"@ =~= mark);
    let full = stem + mark;
    assert(full.subrange(full.len() - 6, full.len() as int) =~= mark);
    assert(full.subrange(0, full.len() - 6) =~= stem);
    if ends_with(stem, ".audit"@) {
        let s = stem.subrange(0, stem.len() - 6);
        assert(stem =~= s + stem.subrange(stem.len() - 6, stem.len() as int));
        assert(stem == s + mark);
    }
}

/// Two logs beside each other whose stems differ by the marker alone share their directory, and
/// the directory lies beside the log.
pub proof fn law_image_dir(a: Seq<char>, b: Seq<char>)
    requires
        parent(a) == parent(b),
        file_stem(b) == file_stem(a) + ".audit"@,
        without_marker(file_stem(a)) == file_stem(a),
    ensures
        image_dir(a) == image_dir(b),
        parent(a) is Some ==> image_dir(a) == join_path(parent(a)->0, file_stem(b)),
        parent(a) is None ==> image_dir(a) == join_path("."@, file_stem(b)),
{
    reveal_strlit(".audit");
    let mark = seq!['.', 'a', 'u', 'd', 'i', 't'];
    assert(".audit"@ =~= mark);
    law_without_marker(file_stem(a));
}


} // verus!
