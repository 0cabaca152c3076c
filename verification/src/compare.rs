//! Pictures that show a line of the scan above the same line in the font that was matched.

use vstd::prelude::*;
use vstd::string::*;
use crate::raster::{in_size, resizable, resize, GrayImage, RgbImage};
use crate::text::{
    alphanumeric, char_at, chars_of, copy_of, decimal, is_alphanumeric, joined, law_decimal,
    lemma_decimal_digits, text_of, to_decimal, zero_padded,
};

verus! {

/// The width of a picture.
pub const TARGET_WIDTH: u32 = 800;

/// The height of the bars above the two halves.
pub const LABEL_HEIGHT: u32 = 18;

/// The height of the lines below the two halves.
pub const SEPARATOR: u32 = 2;

/// How much of the page is shown around a line.
pub const MARGIN: u32 = 8;

// --- Which part of the page is shown ---

/// A part of the page.
#[derive(Clone, Copy, Debug, PartialEq, Eq, Structural)]
pub struct CropArea {
    pub x: u32,
    pub y: u32,
    pub w: u32,
    pub h: u32,
}

/// Where something that begins at `at` and is `size` long begins on a side of length `len`,
/// and how long it is there.
pub open spec fn clamped(at: int, size: int, len: int) -> (int, int) {
    let from = if at < len {
        at
    } else {
        len - 1
    };
    let rest = len - from;
    let part = if size < rest {
        size
    } else {
        rest
    };
    (
        from,
        if part > 1 {
            part
        } else {
            1
        },
    )
}

/// The same with a margin on both sides, as far as the side goes.
pub open spec fn with_margin(at: int, size: int, len: int) -> (int, int) {
    let (from, part) = clamped(at, size, len);
    let start = if from > MARGIN {
        from - MARGIN
    } else {
        0
    };
    (
        start,
        if part + 2 * MARGIN < len - start {
            part + 2 * MARGIN
        } else {
            len - start
        },
    )
}

fn side(at: u32, size: u32, len: u32) -> (r: (u32, u32))
    requires
        len > 0,
    ensures
        (r.0 as int, r.1 as int) == with_margin(at as int, size as int, len as int),
        r.0 + r.1 <= len,
        r.1 > 0,
{
    let from: u32 = if at < len {
        at
    } else {
        len - 1
    };
    let rest: u32 = len - from;
    let part: u32 = if size < rest {
        size
    } else {
        rest
    };
    let part: u32 = if part > 1 {
        part
    } else {
        1
    };
    let start: u32 = if from > MARGIN {
        from - MARGIN
    } else {
        0
    };
    let wide: u64 = part as u64 + 2 * (MARGIN as u64);
    let room: u32 = len - start;
    (
        start,
        if wide < room as u64 {
            wide as u32
        } else {
            room
        },
    )
}

/// The part of a page that shows a line: its box, brought onto the page, with a margin.
pub fn crop_area(page_w: u32, page_h: u32, x: u32, y: u32, w: u32, h: u32) -> (a: CropArea)
    requires
        page_w > 0,
        page_h > 0,
    ensures
        (a.x as int, a.w as int) == with_margin(x as int, w as int, page_w as int),
        (a.y as int, a.h as int) == with_margin(y as int, h as int, page_h as int),
        a.x + a.w <= page_w,
        a.y + a.h <= page_h,
        a.w > 0,
        a.h > 0,
{
    let (ax, aw): (u32, u32) = side(x, w, page_w);
    let (ay, ah): (u32, u32) = side(y, h, page_h);
    CropArea { x: ax, y: ay, w: aw, h: ah }
}

/// A part with margins holds the part without them.
pub proof fn law_margin_holds(at: int, size: int, len: int)
    requires
        0 <= at,
        0 <= size,
        0 < len,
    ensures
        with_margin(at, size, len).0 <= clamped(at, size, len).0,
        clamped(at, size, len).0 + clamped(at, size, len).1 <= with_margin(at, size, len).0
            + with_margin(at, size, len).1 <= len,
{
}

// --- The picture ---

/// The height of a picture whose halves are `h` high.
pub open spec fn panel_height(h: int) -> int {
    2 * (LABEL_HEIGHT + h + SEPARATOR)
}

/// The colour of a pixel: a light blue bar, the scan, a red line, a light green bar, the
/// rendered line, and a grey line.
pub open spec fn panel_pixel(scan: GrayImage, rendered: GrayImage, x: int, y: int) -> (u8, u8, u8) {
    let h = scan.height as int;
    let second = LABEL_HEIGHT + h + SEPARATOR;
    if y < LABEL_HEIGHT {
        (200u8, 220u8, 255u8)
    } else if y < LABEL_HEIGHT + h {
        let g = scan.px(x, y - LABEL_HEIGHT);
        (g, g, g)
    } else if y < second {
        (255u8, 0u8, 0u8)
    } else if y < second + LABEL_HEIGHT {
        (200u8, 255u8, 200u8)
    } else if y < second + LABEL_HEIGHT + h {
        let g = rendered.px(x, y - second - LABEL_HEIGHT);
        (g, g, g)
    } else {
        (100u8, 100u8, 100u8)
    }
}

/// The colour of a pixel of an image.
pub open spec fn color_at(img: RgbImage, x: int, y: int) -> (u8, u8, u8) {
    (img.channel(x, y, 0), img.channel(x, y, 1), img.channel(x, y, 2))
}

fn pixel_of(scan: &GrayImage, rendered: &GrayImage, x: u32, y: u32) -> (c: (u8, u8, u8))
    requires
        scan.wf(),
        rendered.wf(),
        scan.width == TARGET_WIDTH,
        rendered.width == TARGET_WIDTH,
        rendered.height == scan.height,
        x < TARGET_WIDTH,
        y < panel_height(scan.height as int),
        panel_height(scan.height as int) <= u32::MAX,
    ensures
        c == panel_pixel(*scan, *rendered, x as int, y as int),
{
    let h: u32 = scan.height;
    let second: u32 = LABEL_HEIGHT + h + SEPARATOR;
    if y < LABEL_HEIGHT {
        (200, 220, 255)
    } else if y < LABEL_HEIGHT + h {
        let g: u8 = scan.get(x, y - LABEL_HEIGHT);
        (g, g, g)
    } else if y < second {
        (255, 0, 0)
    } else if y < second + LABEL_HEIGHT {
        (200, 255, 200)
    } else if y < second + LABEL_HEIGHT + h {
        let g: u8 = rendered.get(x, y - second - LABEL_HEIGHT);
        (g, g, g)
    } else {
        (100, 100, 100)
    }
}

/// Puts a line of the scan above the rendered line.
pub fn compose_panel(scan: &GrayImage, rendered: &GrayImage) -> (panel: RgbImage)
    requires
        scan.wf(),
        rendered.wf(),
        scan.width == TARGET_WIDTH,
        rendered.width == TARGET_WIDTH,
        rendered.height == scan.height,
        panel_height(scan.height as int) <= u32::MAX,
        TARGET_WIDTH * panel_height(scan.height as int) * 3 <= usize::MAX,
    ensures
        shows(panel, *scan, *rendered),
{
    let height: u32 = 2 * (LABEL_HEIGHT + scan.height + SEPARATOR);
    let mut data: Vec<u8> = Vec::new();
    let mut y: u32 = 0;
    while y < height
        invariant
            scan.wf(),
            rendered.wf(),
            scan.width == TARGET_WIDTH,
            rendered.width == TARGET_WIDTH,
            rendered.height == scan.height,
            height == panel_height(scan.height as int),
            panel_height(scan.height as int) <= u32::MAX,
            y <= height,
            data@.len() == y * TARGET_WIDTH * 3,
            forall|i: int, j: int|
                0 <= i < TARGET_WIDTH && 0 <= j < y ==> #[trigger] triple(
                    data@,
                    j * TARGET_WIDTH + i,
                ) == panel_pixel(*scan, *rendered, i, j),
        decreases height - y,
    {
        let mut x: u32 = 0;
        while x < TARGET_WIDTH
            invariant
                scan.wf(),
                rendered.wf(),
                scan.width == TARGET_WIDTH,
                rendered.width == TARGET_WIDTH,
                rendered.height == scan.height,
                height == panel_height(scan.height as int),
                panel_height(scan.height as int) <= u32::MAX,
                y < height,
                x <= TARGET_WIDTH,
                data@.len() == (y * TARGET_WIDTH + x) * 3,
                forall|i: int, j: int|
                    0 <= i < TARGET_WIDTH && (0 <= j < y || (j == y && i < x)) ==> #[trigger] triple(
                        data@,
                        j * TARGET_WIDTH + i,
                    ) == panel_pixel(*scan, *rendered, i, j),
            decreases TARGET_WIDTH - x,
        {
            let (r, g, b): (u8, u8, u8) = pixel_of(scan, rendered, x, y);
            let ghost before = data@;
            data.push(r);
            data.push(g);
            data.push(b);
            proof {
                assert forall|i: int, j: int|
                    0 <= i < TARGET_WIDTH && (0 <= j < y || (j == y && i < x + 1)) implies #[trigger] triple(
                    data@,
                    j * TARGET_WIDTH + i,
                ) == panel_pixel(*scan, *rendered, i, j) by {
                    let k = j * TARGET_WIDTH + i;
                    let n = y * TARGET_WIDTH + x;
                    if j == y && i == x {
                        assert(k == n);
                    } else {
                        assert(k < n);
                        assert(triple(before, k) == panel_pixel(*scan, *rendered, i, j));
                        assert(triple(data@, k) == triple(before, k));
                    }
                }
            }
            x = x + 1;
        }
        y = y + 1;
    }
    let panel = RgbImage { width: TARGET_WIDTH, height, data };
    proof {
        assert forall|x: int, y: int| 0 <= x < panel.width && 0 <= y < panel.height implies #[trigger] color_at(
            panel,
            x,
            y,
        ) == panel_pixel(*scan, *rendered, x, y) by {
            assert(triple(panel.data@, y * TARGET_WIDTH + x) == panel_pixel(
                *scan,
                *rendered,
                x,
                y,
            ));
        }
    }
    panel
}

/// Three bytes of a pixel.
pub open spec fn triple(d: Seq<u8>, k: int) -> (u8, u8, u8) {
    (d[3 * k], d[3 * k + 1], d[3 * k + 2])
}

/// The picture shows the two images.
pub open spec fn shows(panel: RgbImage, scan: GrayImage, rendered: GrayImage) -> bool {
    &&& panel.wf()
    &&& panel.width == TARGET_WIDTH
    &&& panel.height == panel_height(scan.height as int)
    &&& forall|x: int, y: int|
        0 <= x < panel.width && 0 <= y < panel.height ==> #[trigger] color_at(panel, x, y)
            == panel_pixel(scan, rendered, x, y)
}

/// Scales a line of the scan and the rendered line to the width of a picture and puts one
/// above the other.
pub fn make_panel(scan: &GrayImage, rendered: &GrayImage, scaled_h: u32) -> (panel: RgbImage)
    requires
        scan.wf(),
        rendered.wf(),
        resizable(scan.width, scan.height, TARGET_WIDTH, scaled_h),
        resizable(rendered.width, rendered.height, TARGET_WIDTH, scaled_h),
        panel_height(scaled_h as int) <= u32::MAX,
        TARGET_WIDTH * panel_height(scaled_h as int) * 3 <= isize::MAX,
    ensures
        exists|a: GrayImage, b: GrayImage|
            #![trigger shows(panel, a, b)]
            in_size(*scan, TARGET_WIDTH, scaled_h, a) && in_size(
                *rendered,
                TARGET_WIDTH,
                scaled_h,
                b,
            ) && shows(panel, a, b),
{
    let a: GrayImage = resize(scan, TARGET_WIDTH, scaled_h);
    let b: GrayImage = resize(rendered, TARGET_WIDTH, scaled_h);
    let panel: RgbImage = compose_panel(&a, &b);
    assert(shows(panel, a, b));
    panel
}

// --- All pictures of a page ---

/// The bytes of the first `n` pictures one after the other.
pub open spec fn stacked(panels: Seq<RgbImage>, n: int) -> Seq<u8>
    decreases n,
{
    if n <= 0 {
        Seq::empty()
    } else {
        stacked(panels, n - 1) + panels[n - 1].data@
    }
}

/// The heights of the first `n` pictures together.
pub open spec fn stack_height(panels: Seq<RgbImage>, n: int) -> int
    decreases n,
{
    if n <= 0 {
        0
    } else {
        stack_height(panels, n - 1) + panels[n - 1].height
    }
}

proof fn lemma_stack(panels: Seq<RgbImage>, m: int, n: int)
    requires
        0 <= m <= n,
    ensures
        stack_height(panels, m) <= stack_height(panels, n),
        0 <= stack_height(panels, m),
    decreases n,
{
    if m < n {
        lemma_stack(panels, m, n - 1);
    } else if m > 0 {
        lemma_stack(panels, m - 1, m - 1);
    }
}

/// Puts pictures one below the other. As they all have the width of the result, its bytes
/// are theirs in order.
pub fn stack_panels(panels: &Vec<RgbImage>) -> (r: Option<RgbImage>)
    requires
        forall|i: int|
            0 <= i < panels@.len() ==> (#[trigger] panels@[i]).wf() && panels@[i].width
                == TARGET_WIDTH,
        stack_height(panels@, panels@.len() as int) <= u32::MAX,
    ensures
        r is None <==> panels@.len() == 0,
        r is Some ==> {
            &&& r->0.wf()
            &&& r->0.width == TARGET_WIDTH
            &&& r->0.height == stack_height(panels@, panels@.len() as int)
            &&& r->0.data@ == stacked(panels@, panels@.len() as int)
        },
{
    let n: usize = panels.len();
    if n == 0 {
        return None;
    }
    let mut data: Vec<u8> = Vec::new();
    let mut height: u32 = 0;
    for i in 0..n
        invariant
            n == panels@.len(),
            forall|i: int|
                0 <= i < panels@.len() ==> (#[trigger] panels@[i]).wf() && panels@[i].width
                    == TARGET_WIDTH,
            stack_height(panels@, n as int) <= u32::MAX,
            height == stack_height(panels@, i as int),
            data@ == stacked(panels@, i as int),
            data@.len() == TARGET_WIDTH * height * 3,
    {
        proof {
            lemma_stack(panels@, i + 1, n as int);
        }
        let p: &RgbImage = &panels[i];
        assert(panels@[i as int].wf());
        let m: usize = p.data.len();
        assert(p.width * p.height * 3 == 2400 * p.height) by (nonlinear_arith)
            requires
                p.width == 800,
        ;
        let ghost before = data@;
        assert(before + p.data@.take(0) =~= before);
        for k in 0..m
            invariant
                m == p.data@.len(),
                data@ == before + p.data@.take(k as int),
        {
            data.push(p.data[k]);
            assert(data@ =~= before + p.data@.take(k + 1));
        }
        assert(p.data@.take(m as int) =~= p.data@);
        assert(p.data@.len() == 2400 * p.height);
        assert(before.len() == 2400 * height);
        assert(data@.len() == before.len() + p.data@.len());
        height = height + p.height;
    }
    Some(RgbImage { width: TARGET_WIDTH, height, data })
}

// --- File names ---

/// A character as it may stand in a file name.
pub open spec fn safe_char(c: char) -> char {
    if alphanumeric(c) || c == '-' || c == '_' {
        c
    } else {
        '_'
    }
}

/// A text as a part of a file name: its first thirty characters, with those replaced that
/// are no letters, digits, hyphens or underscores.
pub open spec fn file_part(s: Seq<char>) -> Seq<char> {
    Seq::new(
        if s.len() < 30 {
            s.len()
        } else {
            30
        },
        |i: int| safe_char(s[i]),
    )
}

/// An ASCII letter or digit, a hyphen or an underscore.
pub open spec fn is_word_char(c: char) -> bool {
    ('0' <= c && c <= '9') || ('A' <= c && c <= 'Z') || ('a' <= c && c <= 'z') || c == '-' || c
        == '_'
}

/// A text as a part of a file name. Of ASCII only letters, digits, hyphens and underscores
/// are left, so that the name leads to no other directory.
pub fn sanitize_filename(s: &str) -> (r: String)
    ensures
        r@ == file_part(s@),
        forall|i: int|
            0 <= i < r@.len() && ((#[trigger] r@[i]) as u32) < 128 ==> is_word_char(r@[i]),
{
    let v: Vec<char> = chars_of(s);
    let n: usize = if v.len() < 30 {
        v.len()
    } else {
        30
    };
    let mut out: Vec<char> = Vec::new();
    for i in 0..n
        invariant
            n <= v@.len(),
            out@.len() == i,
            forall|k: int| 0 <= k < i ==> #[trigger] out@[k] == safe_char(v@[k]),
            forall|k: int|
                0 <= k < i && ((#[trigger] out@[k]) as u32) < 128 ==> is_word_char(out@[k]),
    {
        let c: char = char_at(&v, i);
        if is_alphanumeric(c) || c == '-' || c == '_' {
            out.push(c);
        } else {
            out.push('_');
        }
    }
    assert(out@ =~= file_part(s@));
    text_of(&out)
}

/// A number with at least three digits.
pub open spec fn three_digits(n: nat) -> Seq<char> {
    if n < 10 {
        "00"@ + decimal(n)
    } else if n < 100 {
        "0"@ + decimal(n)
    } else {
        decimal(n)
    }
}

/// The name of the file for a line.
pub fn panel_name(page: u64, line: u64, text: &str) -> (r: String)
    requires
        page < u64::MAX,
    ensures
        r@ == "p"@ + decimal((page + 1) as nat) + "-line"@ + three_digits(line as nat) + "-"@
            + file_part(text@) + ".png"@,
{
    let mut s: String = copy_of("p");
    s.append(text_of(&to_decimal(page + 1)).as_str());
    s.append("-line");
    if line < 10 {
        s.append(joined("00", text_of(&to_decimal(line)).as_str()).as_str());
    } else if line < 100 {
        s.append(joined("0", text_of(&to_decimal(line)).as_str()).as_str());
    } else {
        s.append(text_of(&to_decimal(line)).as_str());
    }
    s.append("-");
    s.append(sanitize_filename(text).as_str());
    s.append(".png");
    s
}

/// The name of the file for all lines of a page.
pub fn combined_name(page: u64) -> (r: String)
    requires
        page < u64::MAX,
    ensures
        r@ == "p"@ + decimal((page + 1) as nat) + "-combined.png"@,
{
    let mut s: String = copy_of("p");
    s.append(text_of(&to_decimal(page + 1)).as_str());
    s.append("-combined.png");
    s
}

// --- What is shown ---

/// A part that begins on the side begins there, one that begins beyond it begins at its last
/// place. It is as long as given, as far as the side goes, but at least one.
pub proof fn law_clamped(at: int, size: int, len: int)
    requires
        0 <= at,
        0 <= size,
        0 < len,
    ensures
        ({
            let (from, part) = clamped(at, size, len);
            &&& 0 <= from && from + part <= len && part >= 1
            &&& at < len ==> from == at
            &&& at >= len ==> from == len - 1
            &&& 1 <= size && from + size <= len ==> part == size
            &&& 1 <= size && from + size > len ==> from + part == len
            &&& size == 0 ==> part == 1
        }),
{
}

/// The margin is eight: the shown part begins eight before the part, or at the start of the
/// side, and is sixteen longer than the part or reaches the end of the side.
pub proof fn law_margin(at: int, size: int, len: int)
    requires
        0 <= at,
        0 <= size,
        0 < len,
    ensures
        ({
            let (from, part) = clamped(at, size, len);
            let (start, shown) = with_margin(at, size, len);
            &&& from >= 8 ==> start == from - 8
            &&& from <= 8 ==> start == 0
            &&& start + part + 16 <= len ==> shown == part + 16
            &&& start + part + 16 >= len ==> start + shown == len
        }),
{
}

/// A picture has, from top to bottom, a light blue bar of 18 rows, the scan, two red rows, a
/// light green bar of 18 rows, the rendered line, and two grey rows.
pub proof fn law_panel(panel: RgbImage, scan: GrayImage, rendered: GrayImage, x: int, r: int)
    requires
        shows(panel, scan, rendered),
        0 <= x < 800,
        0 <= r,
    ensures
        ({
            let h = scan.height as int;
            &&& panel.width == 800 && panel.height == 2 * h + 40
            &&& r < 18 ==> color_at(panel, x, r) == (200u8, 220u8, 255u8)
            &&& r < h ==> color_at(panel, x, 18 + r) == (scan.px(x, r), scan.px(x, r), scan.px(x, r))
            &&& r < 2 ==> color_at(panel, x, 18 + h + r) == (255u8, 0u8, 0u8)
            &&& r < 18 ==> color_at(panel, x, 20 + h + r) == (200u8, 255u8, 200u8)
            &&& r < h ==> color_at(panel, x, 38 + h + r) == (
                rendered.px(x, r),
                rendered.px(x, r),
                rendered.px(x, r),
            )
            &&& r < 2 ==> color_at(panel, x, 38 + 2 * h + r) == (100u8, 100u8, 100u8)
        }),
{
}

/// Stacked pictures show each picture below the one before it: row `y` of picture `p` stands
/// below all rows of the pictures before it.
pub proof fn law_stacked(panels: Seq<RgbImage>, r: RgbImage, p: int, x: int, y: int, c: int)
    requires
        forall|i: int|
            0 <= i < panels.len() ==> (#[trigger] panels[i]).wf() && panels[i].width == 800,
        r.width == 800,
        r.data@ == stacked(panels, panels.len() as int),
        0 <= p < panels.len(),
        0 <= x < 800,
        0 <= y < panels[p].height,
        0 <= c < 3,
    ensures
        r.channel(x, stack_height(panels, p) + y, c) == panels[p].channel(x, y, c),
        stack_height(panels, 0) == 0,
        stack_height(panels, p + 1) == stack_height(panels, p) + panels[p].height,
{
    let n = panels.len() as int;
    let k = (y * 800 + x) * 3 + c;
    assert(0 <= k < panels[p].data@.len()) by (nonlinear_arith)
        requires
            k == (y * 800 + x) * 3 + c,
            panels[p].data@.len() == 800 * panels[p].height * 3,
            0 <= x < 800,
            0 <= y < panels[p].height,
            0 <= c < 3,
    ;
    lemma_stacked_at(panels, n, p, k);
    let s = stack_height(panels, p);
    assert(((s + y) * 800 + x) * 3 + c == 2400 * s + k) by (nonlinear_arith)
        requires
            k == (y * 800 + x) * 3 + c,
    ;
}

proof fn lemma_stacked_at(panels: Seq<RgbImage>, n: int, p: int, k: int)
    requires
        forall|i: int|
            0 <= i < panels.len() ==> (#[trigger] panels[i]).wf() && panels[i].width == 800,
        0 <= p < n <= panels.len(),
        0 <= k < panels[p].data@.len(),
    ensures
        stacked(panels, p).len() == 2400 * stack_height(panels, p),
        stacked(panels, n).len() == 2400 * stack_height(panels, n),
        2400 * stack_height(panels, p) + k < stacked(panels, n).len(),
        stacked(panels, n)[2400 * stack_height(panels, p) + k] == panels[p].data@[k],
        0 <= stack_height(panels, p),
    decreases n,
{
    lemma_stacked_len(panels, p);
    lemma_stacked_len(panels, n);
    lemma_stack(panels, p, n);
    if p < n - 1 {
        lemma_stacked_at(panels, n - 1, p, k);
        assert(stacked(panels, n)[2400 * stack_height(panels, p) + k] == stacked(panels, n - 1)[2400
            * stack_height(panels, p) + k]);
    }
}

proof fn lemma_stacked_len(panels: Seq<RgbImage>, n: int)
    requires
        forall|i: int|
            0 <= i < panels.len() ==> (#[trigger] panels[i]).wf() && panels[i].width == 800,
        0 <= n <= panels.len(),
    ensures
        stacked(panels, n).len() == 2400 * stack_height(panels, n),
    decreases n,
{
    if n > 0 {
        lemma_stacked_len(panels, n - 1);
        let h = panels[n - 1].height as int;
        assert(panels[n - 1].data@.len() == 2400 * h) by (nonlinear_arith)
            requires
                panels[n - 1].data@.len() == panels[n - 1].width * panels[n - 1].height * 3,
                panels[n - 1].width == 800,
                h == panels[n - 1].height,
        ;
    }
}

/// A text as part of a file name has at most thirty characters, keeps its letters, digits,
/// hyphens and underscores, and has underscores for all others. It is a part of a file name
/// already.
pub proof fn law_file_part(s: Seq<char>, i: int)
    ensures
        file_part(s).len() <= 30,
        s.len() <= 30 ==> file_part(s).len() == s.len(),
        s.len() >= 30 ==> file_part(s).len() == 30,
        0 <= i < file_part(s).len() ==> {
            let c = s[i];
            &&& alphanumeric(c) || c == '-' ==> file_part(s)[i] == c
            &&& !(alphanumeric(c) || c == '-') ==> file_part(s)[i] == '_'
        },
        file_part(file_part(s)) == file_part(s),
{
    assert(file_part(file_part(s)) =~= file_part(s)) by {
        assert forall|k: int| 0 <= k < file_part(s).len() implies safe_char(file_part(s)[k])
            == file_part(s)[k] by {}
    }
}

/// A number with three digits is the number with zeros in front where it has fewer.
pub proof fn law_three_digits(n: nat)
    ensures
        three_digits(n) == zero_padded(n, 3),
{
    reveal_strlit("00");
    reveal_strlit("0");
    lemma_decimal_digits(n);
    law_decimal(n);
    law_decimal(n / 10);
    law_decimal(n / 100);
    if n >= 100 {
        lemma_decimal_digits(n / 100);
        assert(n / 10 / 10 == n / 100);
        assert(decimal(n).len() == decimal(n / 10).len() + 1);
        assert(decimal(n / 10).len() == decimal(n / 100).len() + 1);
    } else if n >= 10 {
        assert(decimal(n).len() == decimal(n / 10).len() + 1);
        assert(three_digits(n) =~= zero_padded(n, 3));
    } else {
        assert(three_digits(n) =~= zero_padded(n, 3));
    }
}


} // verus!
