//! Parameters and cache paths of rendered reference characters, and the choice of glyphs.

use vstd::prelude::*;
use vstd::string::*;
use crate::contrast::{binarize, binarised};
use crate::features::{AaVariant, NORM_H};
use crate::paths::{join, join_path};
use crate::raster::GrayImage;
use crate::text::{hex, to_hex, copy_of, decimal, joined, text_of, to_decimal};

verus! {

/// How a character is rendered.
#[derive(Clone, Copy, Debug)]
pub struct RenderParams {
    /// Height in pixels after normalisation.
    pub height: u32,
    /// Factor by which the first rendering is larger.
    pub render_scale: u32,
    /// Anti-aliasing, applied after normalisation.
    pub aa: AaVariant,
    /// Threshold for black and white, applied last; `None` keeps shades of gray.
    pub binarize_threshold: Option<u8>,
}

impl Default for RenderParams {
    fn default() -> (p: RenderParams)
        ensures
            p == (RenderParams {
                height: NORM_H,
                render_scale: 1,
                aa: AaVariant::Native,
                binarize_threshold: None,
            }),
    {
        RenderParams {
            height: NORM_H,
            render_scale: 1,
            aa: AaVariant::Native,
            binarize_threshold: None,
        }
    }
}

/// The directory for rendered characters, given the home directory.
pub fn cache_dir(home: Option<&str>) -> (dir: String)
    ensures
        dir@ == match home {
            Some(h) => join_path(join_path(join_path(h@, ".cache"@), "unprint"@), "chars"@),
            None => join_path(".cache/unprint"@, "chars"@),
        },
{
    match home {
        Some(h) => {
            let cache: String = join(h, ".cache");
            let dir: String = join(cache.as_str(), "unprint");
            join(dir.as_str(), "chars")
        },
        None => join(".cache/unprint", "chars"),
    }
}

/// The name of a character's code point: `U+` and at least four hexadecimal digits.
pub fn code_point_name(c: char) -> (name: String)
    ensures
        name@ == "U+"@ + hex(c as u32 as int, 4, true),
{
    let digits: Vec<char> = to_hex(c as u64, 4, true);
    joined("U+", text_of(&digits).as_str())
}

/// Directory and file name of a rendered character below the directory for rendered
/// characters: first the size, then anti-aliasing and threshold, then the code point.
pub open spec fn glyph_path(
    dir: Seq<char>,
    c: char,
    hash_hex: Seq<char>,
    params: RenderParams,
) -> Seq<char> {
    let size = "h"@ + decimal(params.height as nat) + "_s"@ + decimal(params.render_scale as nat);
    let tag = match params.binarize_threshold {
        Some(t) => "b"@ + decimal(t as nat),
        None => "bnone"@,
    };
    let look = params.aa.spec_name() + "_"@ + tag;
    join_path(
        join_path(join_path(join_path(dir, size), look), "U+"@ + hex(c as u32 as int, 4, true)),
        hash_hex + ".png"@,
    )
}

/// The path under which a rendered character is cached, by the hash of its image.
pub fn hash_cache_path(dir: &str, c: char, hash_hex: &str, params: &RenderParams) -> (path: String)
    ensures
        path@ == glyph_path(dir@, c, hash_hex@, *params),
{
    let mut size: String = copy_of("h");
    size.append(text_of(&to_decimal(params.height as u64)).as_str());
    size.append("_s");
    size.append(text_of(&to_decimal(params.render_scale as u64)).as_str());
    let tag: String = match params.binarize_threshold {
        Some(t) => joined("b", text_of(&to_decimal(t as u64)).as_str()),
        None => copy_of("bnone"),
    };
    let mut look: String = copy_of(params.aa.name());
    look.append("_");
    look.append(tag.as_str());
    let code: String = code_point_name(c);
    let file: String = joined(hash_hex, ".png");
    let a: String = join(dir, size.as_str());
    let b: String = join(a.as_str(), look.as_str());
    let d: String = join(b.as_str(), code.as_str());
    join(d.as_str(), file.as_str())
}

/// The path of a cached character, by the hash of its image.
pub fn glyph_cache_path(dir: &str, c: char, hash_hex: &str, params: &RenderParams) -> (path: String)
    ensures
        path@ == glyph_path(dir@, c, hash_hex@, *params),
{
    hash_cache_path(dir, c, hash_hex, params)
}

/// The last step of rendering: black and white, if the parameters ask for it.
pub fn finish_render(img: GrayImage, params: &RenderParams) -> (out: GrayImage)
    requires
        img.wf(),
    ensures
        out.wf(),
        out.width == img.width,
        out.height == img.height,
        match params.binarize_threshold {
            Some(t) => out.data@ == Seq::new(img.data@.len(), |i: int| binarised(img.data@[i], t)),
            None => out.data@ == img.data@,
        },
{
    match params.binarize_threshold {
        Some(t) => binarize(&img, t),
        None => img,
    }
}

/// The ink height of the first, larger rendering.
pub fn first_ink_height(params: &RenderParams) -> (h: u32)
    requires
        params.height * params.render_scale <= u32::MAX,
    ensures
        h == params.height * params.render_scale,
{
    assert(0 <= params.height * params.render_scale) by (nonlinear_arith);
    params.height * params.render_scale
}

/// Whether a rendering canvas has a size that is worth drawing on.
pub fn canvas_accepted(width: u32, height: u32) -> (r: bool)
    ensures
        r == (0 < width <= 2000 && 0 < height <= 2000),
{
    !(width == 0 || height == 0 || width > 2000 || height > 2000)
}

/// Whether a canvas has a size that the character index measures.
pub fn index_canvas_accepted(width: u32, height: u32) -> (r: bool)
    ensures
        r == (0 < width <= 500 && 0 < height <= 500),
{
    !(width == 0 || height == 0 || width > 500 || height > 500)
}

/// Darkens one pixel: the darker of the old and the new value stays. Positions outside the
/// image are ignored.
pub fn darken(img: &mut GrayImage, x: i32, y: i32, value: u8)
    requires
        old(img).wf(),
    ensures
        final(img).wf(),
        final(img).width == old(img).width,
        final(img).height == old(img).height,
        0 <= x < old(img).width && 0 <= y < old(img).height ==> final(img).data@ == old(
            img,
        ).data@.update(
            y * old(img).width + x,
            if old(img).px(x as int, y as int) < value {
                old(img).px(x as int, y as int)
            } else {
                value
            },
        ),
        !(0 <= x < old(img).width && 0 <= y < old(img).height) ==> final(img).data@ == old(
            img,
        ).data@,
{
    if x >= 0 && y >= 0 && (x as u32) < img.width && (y as u32) < img.height {
        let n: usize = img.data.len();
        proof {
            crate::grid::lemma_flat(img.width as int, img.height as int, x as int, y as int);
        }
        let at: usize = y as usize * img.width as usize + x as usize;
        let cur: u8 = img.data[at];
        img.data.set(
            at,
            if cur < value {
                cur
            } else {
                value
            },
        );
    }
}

/// Rendering only ever adds ink: no pixel gets lighter.
pub proof fn law_darken_keeps_ink(before: u8, value: u8)
    ensures
        (if before < value {
            before
        } else {
            value
        }) <= before,
{
}

// --- Glyph choice ---

/// Entry `i` of a list of overrides is the first one for `ch`.
pub open spec fn first_override(overrides: Seq<(char, u16)>, ch: char, i: int) -> bool {
    &&& 0 <= i < overrides.len()
    &&& overrides[i].0 == ch
    &&& forall|j: int| 0 <= j < i ==> (#[trigger] overrides[j]).0 != ch
}

/// The glyph for a character: the first override for it, or else the glyph `mapped` that the
/// font's own character map gives.
pub open spec fn is_resolved(
    overrides: Seq<(char, u16)>,
    ch: char,
    mapped: u16,
    r: u16,
) -> bool {
    ||| exists|i: int| #[trigger] first_override(overrides, ch, i) && r == overrides[i].1
    ||| (r == mapped && forall|i: int|
        0 <= i < overrides.len() ==> (#[trigger] overrides[i]).0 != ch)
}

/// The glyph for a character, where the font maps it to the glyph `mapped`: the first override
/// for it, if there is one, and else that glyph.
pub fn resolve_glyph(mapped: u16, ch: char, overrides: Option<&[(char, u16)]>) -> (r: u16)
    ensures
        match overrides {
            Some(list) => is_resolved(list@, ch, mapped, r),
            None => r == mapped,
        },
{
    let list: &[(char, u16)] = match overrides {
        Some(list) => list,
        None => {
            return mapped;
        },
    };
    let n: usize = list.len();
    for i in 0..n
        invariant
            n == list@.len(),
            overrides == Some(list),
            forall|j: int| 0 <= j < i ==> (#[trigger] list@[j]).0 != ch,
    {
        if list[i].0 == ch {
            assert(first_override(list@, ch, i as int));
            return list[i].1;
        }
    }
    mapped
}

/// A character has one glyph: that of its first override, whatever the font says, and without
/// an override the one that the font gives.
pub proof fn law_resolved(overrides: Seq<(char, u16)>, ch: char, mapped: u16, r: u16, i: int)
    requires
        is_resolved(overrides, ch, mapped, r),
    ensures
        0 <= i < overrides.len() && overrides[i].0 == ch && (forall|j: int|
            0 <= j < i ==> (#[trigger] overrides[j]).0 != ch) ==> r == overrides[i].1,
        (forall|j: int| 0 <= j < overrides.len() ==> (#[trigger] overrides[j]).0 != ch) ==> r
            == mapped,
{
    if exists|k: int| #[trigger] first_override(overrides, ch, k) && r == overrides[k].1 {
        let k = choose|k: int| #[trigger] first_override(overrides, ch, k) && r == overrides[k].1;
        if 0 <= i < overrides.len() && overrides[i].0 == ch && (forall|j: int|
            0 <= j < i ==> (#[trigger] overrides[j]).0 != ch) {
            if i < k {
                assert(overrides[i].0 != ch);
            } else if k < i {
                assert(overrides[k].0 != ch);
            }
        }
    }
}

} // verus!
