//! Recognizer-side rules: recognizer settings and boxes, CTC decoding of the best
//! class per time step, point-set boxes, pixel format codes of the neural network
//! runtime, and the weights file that goes with a network description.
use vstd::prelude::*;

use crate::icon::crop_window;
use crate::mask::RgbPixels;
use crate::pipeline::OcrWord;
use crate::types::Bounds;

verus! {

/// Settings of text recognition. `min_confidence` is the bit pattern of an `f32`;
/// `max_side` limits the longer image side (0: no downscaling).
#[derive(Debug, Clone, Copy, PartialEq, Eq, Structural)]
pub struct OcrConfig {
    pub min_confidence: u32,
    pub max_side: u32,
}

impl Default for OcrConfig {
    /// Confidence at least 0.5, longer side at most 960 px.
    fn default() -> (c: OcrConfig)
        ensures
            c.min_confidence == 0x3f00_0000,
            c.max_side == 960,
    {
        OcrConfig { min_confidence: 0x3f00_0000, max_side: 960 }
    }
}


/// A box as the recognizer reports it.
#[derive(Debug, Clone, Copy, PartialEq, Eq, Structural)]
pub struct OcrBounds {
    pub x: i32,
    pub y: i32,
    pub width: i32,
    pub height: i32,
}

impl OcrBounds {
    pub fn new(x: i32, y: i32, width: i32, height: i32) -> (b: OcrBounds)
        ensures
            b == (OcrBounds { x, y, width, height }),
    {
        OcrBounds { x, y, width, height }
    }
}

/// A word as the recognizer reports it; `confidence` is the bit pattern of an `f32`.
#[derive(Debug, Clone)]
pub struct RecognizedWord {
    pub text: String,
    pub bounds: OcrBounds,
    pub confidence: u32,
}

/// Recognized words as layout words: same text, box and confidence.
pub fn convert_words(words: Vec<RecognizedWord>) -> (r: Vec<OcrWord>)
    ensures
        r@.len() == words@.len(),
        forall|i: int|
            0 <= i < r@.len() ==> {
                &&& (#[trigger] r@[i]).text@ == words@[i].text@
                &&& r@[i].bounds == (Bounds {
                    x: words@[i].bounds.x,
                    y: words@[i].bounds.y,
                    width: words@[i].bounds.width,
                    height: words@[i].bounds.height,
                })
                &&& r@[i].confidence == words@[i].confidence
            },
{
    let mut r: Vec<OcrWord> = Vec::new();
    let mut i: usize = 0;
    while i < words.len()
        invariant
            i <= words@.len(),
            r@.len() == i,
            forall|k: int|
                0 <= k < i ==> {
                    &&& (#[trigger] r@[k]).text@ == words@[k].text@
                    &&& r@[k].bounds == (Bounds {
                        x: words@[k].bounds.x,
                        y: words@[k].bounds.y,
                        width: words@[k].bounds.width,
                        height: words@[k].bounds.height,
                    })
                    &&& r@[k].confidence == words@[k].confidence
                },
        decreases words@.len() - i,
    {
        let w = &words[i];
        let b = Bounds::new(w.bounds.x, w.bounds.y, w.bounds.width, w.bounds.height);
        r.push(OcrWord { text: w.text.clone(), bounds: b, confidence: w.confidence });
        i = i + 1;
    }
    r
}

/// CTC decoding of the best class of each of the first `n` time steps: a class
/// is written when it differs from the previous step's (the first step is compared
/// with the blank 0), is not the blank, and names a dictionary entry (class `c` is
/// entry `c - 1`).
pub open spec fn ctc_text(best: Seq<usize>, dict: Seq<Seq<char>>, n: int) -> Seq<char>
    decreases n,
{
    if n <= 0 {
        Seq::empty()
    } else {
        let prev = if n == 1 { 0 } else { best[n - 2] };
        let b = best[n - 1];
        ctc_text(best, dict, n - 1) + if b != prev && b != 0 && b - 1 < dict.len() {
            dict[b - 1]
        } else {
            Seq::empty()
        }
    }
}

/// Decodes the best class per time step into text.
pub fn decode_ctc(best: &Vec<usize>, dict: &Vec<String>) -> (text: String)
    ensures
        text@ == ctc_text(best@, crate::text::string_views(dict@), best@.len() as int),
{
    let ghost dv = crate::text::string_views(dict@);
    let mut text = String::new();
    let mut last: usize = 0;
    let mut t: usize = 0;
    while t < best.len()
        invariant
            t <= best@.len(),
            dv == crate::text::string_views(dict@),
            text@ == ctc_text(best@, dv, t as int),
            last == (if t == 0 { 0 } else { best@[t - 1] }),
        decreases best@.len() - t,
    {
        let b = best[t];
        if b != last {
            last = b;
            if b != 0 {
                let k = b - 1;
                if k < dict.len() {
                    text.append(dict[k].as_str());
                }
            }
        }
        t = t + 1;
    }
    text
}

/// The smallest box `(x0, y0, x1, y1)` (inclusive corners) holding the first `n`
/// points; `(u32::MAX, u32::MAX, 0, 0)` for none.
pub open spec fn spec_aabb(points: Seq<(u32, u32)>, n: int) -> (u32, u32, u32, u32)
    decreases n,
{
    if n <= 0 {
        (u32::MAX, u32::MAX, 0, 0)
    } else {
        let (x0, y0, x1, y1) = spec_aabb(points, n - 1);
        let p = points[n - 1];
        (
            if p.0 < x0 { p.0 } else { x0 },
            if p.1 < y0 { p.1 } else { y0 },
            if p.0 > x1 { p.0 } else { x1 },
            if p.1 > y1 { p.1 } else { y1 },
        )
    }
}

/// The corners of the smallest box holding every point.
pub fn contour_aabb(points: &Vec<(u32, u32)>) -> (r: (u32, u32, u32, u32))
    ensures
        r == spec_aabb(points@, points@.len() as int),
{
    let mut x0 = u32::MAX;
    let mut y0 = u32::MAX;
    let mut x1 = 0u32;
    let mut y1 = 0u32;
    let mut i: usize = 0;
    while i < points.len()
        invariant
            i <= points@.len(),
            (x0, y0, x1, y1) == spec_aabb(points@, i as int),
        decreases points@.len() - i,
    {
        let (px, py) = points[i];
        if px < x0 {
            x0 = px;
        }
        if py < y0 {
            y0 = py;
        }
        if px > x1 {
            x1 = px;
        }
        if py > y1 {
            y1 = py;
        }
        i = i + 1;
    }
    (x0, y0, x1, y1)
}

/// Pixel layout codes of the network runtime.
pub const PIXEL_RGB: i32 = 1;

pub const PIXEL_BGR: i32 = 2;

pub const PIXEL_GRAY: i32 = 3;

pub const PIXEL_RGBA: i32 = 4;

pub const PIXEL_BGRA: i32 = 5;

/// A pixel layout, or a conversion from one layout to another.
#[derive(Debug, Clone, Copy, PartialEq, Eq, Structural)]
pub enum MatPixelType {
    BGR,
    BGRA,
    Gray,
    RGB,
    RGBA,
    RgbToBgr,
    RgbToGray,
    RgbToRgba,
    RgbToBgra,
    BgrToRgb,
    BgrToGray,
    BgrToRgba,
    BgrToBgra,
    GrayToRgb,
    GrayToBgr,
    GrayToRgba,
    GrayToBgra,
    RgbaToRgb,
    RgbaToBgr,
    RgbaToGray,
    RgbaToBgra,
    BgraToRgb,
    BgraToBgr,
    BgraToGray,
    BgraToRgba,
}

impl MatPixelType {
    /// The layout the pixels come in.
    pub open spec fn source(self) -> i32 {
        match self {
            MatPixelType::BGR | MatPixelType::BgrToRgb | MatPixelType::BgrToGray
            | MatPixelType::BgrToRgba | MatPixelType::BgrToBgra => PIXEL_BGR,
            MatPixelType::BGRA | MatPixelType::BgraToRgb | MatPixelType::BgraToBgr
            | MatPixelType::BgraToGray | MatPixelType::BgraToRgba => PIXEL_BGRA,
            MatPixelType::Gray | MatPixelType::GrayToRgb | MatPixelType::GrayToBgr
            | MatPixelType::GrayToRgba | MatPixelType::GrayToBgra => PIXEL_GRAY,
            MatPixelType::RGB | MatPixelType::RgbToBgr | MatPixelType::RgbToGray
            | MatPixelType::RgbToRgba | MatPixelType::RgbToBgra => PIXEL_RGB,
            MatPixelType::RGBA | MatPixelType::RgbaToRgb | MatPixelType::RgbaToBgr
            | MatPixelType::RgbaToGray | MatPixelType::RgbaToBgra => PIXEL_RGBA,
        }
    }

    /// The layout converted to; `None` for a plain layout.
    pub open spec fn target(self) -> Option<i32> {
        match self {
            MatPixelType::BGR | MatPixelType::BGRA | MatPixelType::Gray | MatPixelType::RGB
            | MatPixelType::RGBA => None,
            MatPixelType::RgbToBgr | MatPixelType::GrayToBgr | MatPixelType::RgbaToBgr
            | MatPixelType::BgraToBgr => Some(PIXEL_BGR),
            MatPixelType::RgbToGray | MatPixelType::BgrToGray | MatPixelType::RgbaToGray
            | MatPixelType::BgraToGray => Some(PIXEL_GRAY),
            MatPixelType::RgbToRgba | MatPixelType::BgrToRgba | MatPixelType::GrayToRgba
            | MatPixelType::BgraToRgba => Some(PIXEL_RGBA),
            MatPixelType::RgbToBgra | MatPixelType::BgrToBgra | MatPixelType::GrayToBgra
            | MatPixelType::RgbaToBgra => Some(PIXEL_BGRA),
            MatPixelType::BgrToRgb | MatPixelType::GrayToRgb | MatPixelType::RgbaToRgb
            | MatPixelType::BgraToRgb => Some(PIXEL_RGB),
        }
    }

    /// Bytes per source pixel.
    pub open spec fn spec_stride(self) -> i32 {
        let s = self.source();
        if s == PIXEL_GRAY {
            1
        } else if s == PIXEL_RGB || s == PIXEL_BGR {
            3
        } else {
            4
        }
    }

    /// The runtime's code: the source layout, with the target layout, if any,
    /// 16 bits up.
    pub fn to_int(self) -> (r: i32)
        ensures
            r == self.source() + match self.target() {
                Some(t) => t * 65536,
                None => 0,
            },
    {
        match self {
            MatPixelType::BGR => PIXEL_BGR,
            MatPixelType::BGRA => PIXEL_BGRA,
            MatPixelType::Gray => PIXEL_GRAY,
            MatPixelType::RGB => PIXEL_RGB,
            MatPixelType::RGBA => PIXEL_RGBA,
            MatPixelType::RgbToBgr => PIXEL_RGB + PIXEL_BGR * 65536,
            MatPixelType::RgbToGray => PIXEL_RGB + PIXEL_GRAY * 65536,
            MatPixelType::RgbToRgba => PIXEL_RGB + PIXEL_RGBA * 65536,
            MatPixelType::RgbToBgra => PIXEL_RGB + PIXEL_BGRA * 65536,
            MatPixelType::BgrToRgb => PIXEL_BGR + PIXEL_RGB * 65536,
            MatPixelType::BgrToGray => PIXEL_BGR + PIXEL_GRAY * 65536,
            MatPixelType::BgrToRgba => PIXEL_BGR + PIXEL_RGBA * 65536,
            MatPixelType::BgrToBgra => PIXEL_BGR + PIXEL_BGRA * 65536,
            MatPixelType::GrayToRgb => PIXEL_GRAY + PIXEL_RGB * 65536,
            MatPixelType::GrayToBgr => PIXEL_GRAY + PIXEL_BGR * 65536,
            MatPixelType::GrayToRgba => PIXEL_GRAY + PIXEL_RGBA * 65536,
            MatPixelType::GrayToBgra => PIXEL_GRAY + PIXEL_BGRA * 65536,
            MatPixelType::RgbaToRgb => PIXEL_RGBA + PIXEL_RGB * 65536,
            MatPixelType::RgbaToBgr => PIXEL_RGBA + PIXEL_BGR * 65536,
            MatPixelType::RgbaToGray => PIXEL_RGBA + PIXEL_GRAY * 65536,
            MatPixelType::RgbaToBgra => PIXEL_RGBA + PIXEL_BGRA * 65536,
            MatPixelType::BgraToRgb => PIXEL_BGRA + PIXEL_RGB * 65536,
            MatPixelType::BgraToBgr => PIXEL_BGRA + PIXEL_BGR * 65536,
            MatPixelType::BgraToGray => PIXEL_BGRA + PIXEL_GRAY * 65536,
            MatPixelType::BgraToRgba => PIXEL_BGRA + PIXEL_RGBA * 65536,
        }
    }

    /// Bytes per pixel of the source layout.
    pub fn stride(self) -> (r: i32)
        ensures
            r == self.spec_stride(),
    {
        match self {
            MatPixelType::BGR | MatPixelType::BgrToBgra | MatPixelType::BgrToGray
            | MatPixelType::BgrToRgb | MatPixelType::BgrToRgba => 3,
            MatPixelType::BGRA | MatPixelType::BgraToBgr | MatPixelType::BgraToGray
            | MatPixelType::BgraToRgb | MatPixelType::BgraToRgba => 4,
            MatPixelType::Gray | MatPixelType::GrayToBgr | MatPixelType::GrayToBgra
            | MatPixelType::GrayToRgb | MatPixelType::GrayToRgba => 1,
            MatPixelType::RGB | MatPixelType::RgbToBgr | MatPixelType::RgbToBgra
            | MatPixelType::RgbToGray | MatPixelType::RgbToRgba => 3,
            MatPixelType::RGBA | MatPixelType::RgbaToBgr | MatPixelType::RgbaToBgra
            | MatPixelType::RgbaToGray | MatPixelType::RgbaToRgb => 4,
        }
    }
}

/// The weights file name for a network description file name: `x.ncnn.param`
/// gives `x.ncnn.bin`, `x.param` gives `x.bin`; `None` for any other name (the
/// extension is then replaced by `bin`).
pub open spec fn spec_bin_file_name(name: Seq<char>) -> Option<Seq<char>> {
    let long = ".ncnn.param"@;
    let short = ".param"@;
    if name.len() >= long.len() && name.subrange(name.len() - long.len(), name.len() as int) == long {
        Some(name.subrange(0, name.len() - long.len()) + ".ncnn.bin"@)
    } else if name.len() >= short.len() && name.subrange(name.len() - short.len(), name.len() as int)
        == short {
        Some(name.subrange(0, name.len() - short.len()) + ".bin"@)
    } else {
        None
    }
}

fn strip_suffix(name: &str, suffix: &str) -> (r: Option<String>)
    ensures
        match r {
            Some(stem) => name@.len() >= suffix@.len() && name@.subrange(
                name@.len() - suffix@.len(),
                name@.len() as int,
            ) == suffix@ && stem@ == name@.subrange(0, name@.len() - suffix@.len()),
            None => !(name@.len() >= suffix@.len() && name@.subrange(
                name@.len() - suffix@.len(),
                name@.len() as int,
            ) == suffix@),
        },
{
    let n = name.unicode_len();
    let m = suffix.unicode_len();
    if n < m {
        return None;
    }
    let tail = String::from_str(name.substring_char(n - m, n));
    let want = String::from_str(suffix);
    if tail == want {
        Some(String::from_str(name.substring_char(0, n - m)))
    } else {
        None
    }
}

/// The weights file name that goes with a network description file name.
pub fn bin_file_name(name: &str) -> (r: Option<String>)
    ensures
        match r {
            Some(s) => spec_bin_file_name(name@) == Some(s@),
            None => spec_bin_file_name(name@) is None,
        },
{
    if let Some(stem) = strip_suffix(name, ".ncnn.param") {
        let mut s = stem;
        s.append(".ncnn.bin");
        return Some(s);
    }
    if let Some(stem) = strip_suffix(name, ".param") {
        let mut s = stem;
        s.append(".bin");
        return Some(s);
    }
    None
}

/// What `std::path::Path::file_name` gives for `path`, as text (empty when there is
/// no last component or it is not UTF-8), on a platform whose main path separator
/// is `sep`.
pub uninterp spec fn file_name_under(sep: char, path: Seq<char>) -> Seq<char>;

/// What `std::path::Path::with_file_name` gives for `path` and `name`, as text, on
/// a platform whose main path separator is `sep`.
pub uninterp spec fn with_file_name_under(sep: char, path: Seq<char>, name: Seq<char>) -> Seq<char>;

/// What `std::path::Path::with_extension` gives for `path` and `ext`, as text, on a
/// platform whose main path separator is `sep`.
pub uninterp spec fn with_extension_under(sep: char, path: Seq<char>, ext: Seq<char>) -> Seq<char>;

/// The last component of a path, by `std::path::Path::file_name`, with the
/// platform's main separator (`std::path::MAIN_SEPARATOR`). Claimed: the text is
/// a function of the path and that separator alone.
#[verifier::external_body]
fn path_file_name(p: &str) -> (r: (String, char))
    ensures
        r.0@ == file_name_under(r.1, p@),
{
    let name = match std::path::Path::new(p).file_name() {
        Some(n) => n.to_str().unwrap_or("").to_string(),
        None => String::new(),
    };
    (name, std::path::MAIN_SEPARATOR)
}

/// The path with its last component replaced, by `std::path::Path::with_file_name`,
/// with the platform's main separator. Claimed: the text is a function of the
/// path, the name and that separator alone.
#[verifier::external_body]
fn path_with_file_name(p: &str, name: &str) -> (r: (String, char))
    ensures
        r.0@ == with_file_name_under(r.1, p@, name@),
{
    let out = std::path::Path::new(p).with_file_name(name).to_string_lossy().into_owned();
    (out, std::path::MAIN_SEPARATOR)
}

/// The path with its extension replaced, by `std::path::Path::with_extension`,
/// with the platform's main separator. Claimed: the text is a function of the
/// path, the extension and that separator alone. An extension holding a path
/// separator makes the call panic, so it is not admitted.
#[verifier::external_body]
fn path_with_extension(p: &str, ext: &str) -> (r: (String, char))
    requires
        forall|i: int| 0 <= i < ext@.len() ==> ext@[i] != '/' && ext@[i] != '\\',
    ensures
        r.0@ == with_extension_under(r.1, p@, ext@),
{
    let out = std::path::Path::new(p).with_extension(ext).to_string_lossy().into_owned();
    (out, std::path::MAIN_SEPARATOR)
}

/// The weights path for `param_path` where its file name is read with separator
/// `read_sep` and the new path is formed with separator `write_sep`: the file name
/// replaced as `spec_bin_file_name` says, else the extension replaced by `bin`.
pub open spec fn spec_bin_path(read_sep: char, write_sep: char, param_path: Seq<char>) -> Seq<char> {
    match spec_bin_file_name(file_name_under(read_sep, param_path)) {
        Some(f) => with_file_name_under(write_sep, param_path, f),
        None => with_extension_under(write_sep, param_path, "bin"@),
    }
}

/// The weights file path that goes with a network description path: its file name
/// replaced as `bin_file_name` says, else its extension replaced by `bin`, by the
/// path rules of the platform it runs on.
pub fn bin_path(param_path: &str) -> (r: String)
    ensures
        exists|read_sep: char, write_sep: char| r@ == spec_bin_path(read_sep, write_sep, param_path@),
{
    let (name, read_sep) = path_file_name(param_path);
    let ext = "bin";
    proof {
        reveal_strlit("bin");
    }
    let (out, write_sep) = match bin_file_name(name.as_str()) {
        Some(file) => path_with_file_name(param_path, file.as_str()),
        None => path_with_extension(param_path, ext),
    };
    assert(out@ == spec_bin_path(read_sep, write_sep, param_path@));
    out
}


impl RgbPixels {
    pub open spec fn wf(self) -> bool {
        self.data@.len() == 3 * self.width * self.height
    }
}

/// Byte `c` of pixel `(x, y)` of a `w`-wide RGB image.
pub open spec fn rgb_at(data: Seq<u8>, w: int, x: int, y: int, c: int) -> u8 {
    data[(y * w + x) * 3 + c]
}

/// `out` is `img` with `left`, `top`, `right` and `bottom` pixels of gray level
/// `value` added around it.
pub open spec fn is_padding(img: RgbPixels, left: int, top: int, right: int, bottom: int, value: u8, out: RgbPixels) -> bool {
    &&& out.width == img.width + left + right
    &&& out.height == img.height + top + bottom
    &&& out.wf()
    &&& forall|y: int, x: int, c: int|
        0 <= y < out.height && 0 <= x < out.width && 0 <= c < 3 ==> #[trigger] rgb_at(
            out.data@,
            out.width as int,
            x,
            y,
            c,
        ) == if left <= x < left + img.width && top <= y < top + img.height {
            rgb_at(img.data@, img.width as int, x - left, y - top, c)
        } else {
            value
        }
}

/// Pads an RGB image with a gray border.
pub fn pad_rgb(img: &RgbPixels, left: u32, top: u32, right: u32, bottom: u32, value: u8) -> (out: RgbPixels)
    requires
        img.wf(),
        img.width + left + right <= u32::MAX,
        img.height + top + bottom <= u32::MAX,
        3 * (img.width + left + right) * (img.height + top + bottom) <= usize::MAX,
    ensures
        is_padding(*img, left as int, top as int, right as int, bottom as int, value, out),
{
    let w = img.width as usize;
    let h = img.height as usize;
    let ow = w + left as usize + right as usize;
    let oh = h + top as usize + bottom as usize;
    let l = left as usize;
    let t = top as usize;
    let ghost src = img.data@;
    let total = img.data.len();
    let mut data: Vec<u8> = Vec::new();
    let mut y: usize = 0;
    while y < oh
        invariant
            y <= oh,
            ow == w + l + right,
            oh == h + t + bottom,
            3 * ow * oh <= usize::MAX,
            w == img.width,
            h == img.height,
            l == left,
            t == top,
            src == img.data@,
            src.len() == 3 * w * h,
            total == src.len(),
            data@.len() == (y * ow) * 3,
            forall|yy: int, xx: int, c: int|
                0 <= yy < y && 0 <= xx < ow && 0 <= c < 3 ==> #[trigger] rgb_at(data@, ow as int, xx, yy, c)
                    == if l <= xx < l + w && t <= yy < t + h {
                    rgb_at(src, w as int, xx - l, yy - t, c)
                } else {
                    value
                },
        decreases oh - y,
    {
        let mut x: usize = 0;
        while x < ow
            invariant
                x <= ow,
                y < oh,
                ow == w + l + right,
                oh == h + t + bottom,
                3 * ow * oh <= usize::MAX,
                w == img.width,
                h == img.height,
                l == left,
                t == top,
                src == img.data@,
                src.len() == 3 * w * h,
                total == src.len(),
                data@.len() == (y * ow + x) * 3,
                forall|yy: int, xx: int, c: int|
                    0 <= yy < y && 0 <= xx < ow && 0 <= c < 3 ==> #[trigger] rgb_at(data@, ow as int, xx, yy, c)
                        == if l <= xx < l + w && t <= yy < t + h {
                        rgb_at(src, w as int, xx - l, yy - t, c)
                    } else {
                        value
                    },
                forall|xx: int, c: int|
                    0 <= xx < x && 0 <= c < 3 ==> #[trigger] rgb_at(data@, ow as int, xx, y as int, c)
                        == if l <= xx < l + w && t <= y < t + h {
                        rgb_at(src, w as int, xx - l, y - t, c)
                    } else {
                        value
                    },
            decreases ow - x,
        {
            let ghost before = data@;
            if l <= x && x < l + w && t <= y && y < t + h {
                let sx = x - l;
                let sy = y - t;
                proof {
                    assert((sy * w + sx) * 3 + 2 < 3 * w * h) by (nonlinear_arith)
                        requires sx < w, sy < h;
                    assert(sy * w + sx < w * h) by (nonlinear_arith)
                        requires sx < w, sy < h;
                }
                let k = (sy * w + sx) * 3;
                data.push(img.data[k]);
                data.push(img.data[k + 1]);
                data.push(img.data[k + 2]);
                assert(data@[before.len() as int] == src[k as int]);
                assert(data@[before.len() as int + 1] == src[k + 1]);
                assert(data@[before.len() as int + 2] == src[k + 2]);
            } else {
                data.push(value);
                data.push(value);
                data.push(value);
                assert(data@[before.len() as int] == value);
                assert(data@[before.len() as int + 1] == value);
                assert(data@[before.len() as int + 2] == value);
            }
            proof {
                assert((y * ow + x) * 3 + 3 == (y * ow + (x + 1)) * 3) by (nonlinear_arith);
                assert forall|yy: int, xx: int, c: int|
                    0 <= yy < y && 0 <= xx < ow && 0 <= c < 3 implies #[trigger] rgb_at(data@, ow as int, xx, yy, c)
                        == if l <= xx < l + w && t <= yy < t + h {
                        rgb_at(src, w as int, xx - l, yy - t, c)
                    } else {
                        value
                    } by {
                    assert((yy * ow + xx) * 3 + c < (y * ow) * 3) by (nonlinear_arith)
                        requires 0 <= yy < y, 0 <= xx < ow, 0 <= c < 3;
                    assert((y * ow) * 3 <= (y * ow + x) * 3);
                    assert(data@[(yy * ow + xx) * 3 + c] == before[(yy * ow + xx) * 3 + c]);
                    assert(rgb_at(before, ow as int, xx, yy, c) == rgb_at(data@, ow as int, xx, yy, c));
                }
                assert forall|xx: int, c: int|
                    0 <= xx < x + 1 && 0 <= c < 3 implies #[trigger] rgb_at(data@, ow as int, xx, y as int, c)
                        == if l <= xx < l + w && t <= y < t + h {
                        rgb_at(src, w as int, xx - l, y - t, c)
                    } else {
                        value
                    } by {
                    if xx < x {
                        assert((y * ow + xx) * 3 + c < (y * ow + x) * 3) by (nonlinear_arith)
                            requires 0 <= xx < x, 0 <= c < 3;
                        assert(data@[(y * ow + xx) * 3 + c] == before[(y * ow + xx) * 3 + c]);
                        assert(rgb_at(before, ow as int, xx, y as int, c) == rgb_at(
                            data@,
                            ow as int,
                            xx,
                            y as int,
                            c,
                        ));
                    } else {
                        assert((y * ow + xx) * 3 + c == before.len() + c);
                        if l <= x && x < l + w && t <= y && y < t + h {
                            assert(rgb_at(src, w as int, xx - l, y - t, c) == src[((y - t) * w + (x
                                - l)) * 3 + c]);
                        }
                    }
                }
            }
            x = x + 1;
        }
        proof {
            assert((y * ow + ow) * 3 == ((y + 1) * ow) * 3) by (nonlinear_arith);
        }
        y = y + 1;
    }
    proof {
        assert((oh * ow) * 3 == 3 * ow * oh) by (nonlinear_arith);
    }
    RgbPixels { width: ow as u32, height: oh as u32, data }
}


/// The part of an RGB image that `bounds` covers, clipped to the image; an empty
/// image when nothing of it lies inside.
pub fn crop_rgb(img: &RgbPixels, bounds: &Bounds) -> (out: RgbPixels)
    requires
        img.wf(),
        img.width <= i32::MAX,
        img.height <= i32::MAX,
        bounds.wf(),
    ensures
        ({
            let (x0, y0, x1, y1) = crop_window(img.width as int, img.height as int, *bounds);
            if x1 <= x0 || y1 <= y0 {
                out.width == 0 && out.height == 0 && out.data@.len() == 0
            } else {
                &&& out.width == x1 - x0
                &&& out.height == y1 - y0
                &&& out.wf()
                &&& forall|y: int, x: int, c: int|
                    0 <= y < out.height && 0 <= x < out.width && 0 <= c < 3 ==> #[trigger] rgb_at(
                        out.data@,
                        out.width as int,
                        x,
                        y,
                        c,
                    ) == rgb_at(img.data@, img.width as int, x0 + x, y0 + y, c)
            }
        }),
{
    let gw = img.width as i32;
    let gh = img.height as i32;
    let x0 = if bounds.x >= 0 { bounds.x } else { 0 };
    let y0 = if bounds.y >= 0 { bounds.y } else { 0 };
    let right = bounds.x + bounds.width;
    let bottom = bounds.y + bounds.height;
    let x1 = if right <= gw { right } else { gw };
    let y1 = if bottom <= gh { bottom } else { gh };
    if x1 <= x0 || y1 <= y0 {
        return RgbPixels { width: 0, height: 0, data: Vec::new() };
    }
    let w = (x1 - x0) as usize;
    let h = (y1 - y0) as usize;
    let ux0 = x0 as usize;
    let uy0 = y0 as usize;
    let iw = img.width as usize;
    let ghost src = img.data@;
    let total = img.data.len();
    let mut data: Vec<u8> = Vec::new();
    let mut y: usize = 0;
    while y < h
        invariant
            y <= h,
            ux0 + w <= iw,
            uy0 + h <= img.height,
            iw == img.width,
            src == img.data@,
            src.len() == 3 * iw * img.height,
            total == src.len(),
            data@.len() == (y * w) * 3,
            forall|yy: int, xx: int, c: int|
                0 <= yy < y && 0 <= xx < w && 0 <= c < 3 ==> #[trigger] rgb_at(data@, w as int, xx, yy, c)
                    == rgb_at(src, iw as int, ux0 + xx, uy0 + yy, c),
        decreases h - y,
    {
        let mut x: usize = 0;
        while x < w
            invariant
                x <= w,
                y < h,
                ux0 + w <= iw,
                uy0 + h <= img.height,
                iw == img.width,
                src == img.data@,
                src.len() == 3 * iw * img.height,
                total == src.len(),
                data@.len() == (y * w + x) * 3,
                forall|yy: int, xx: int, c: int|
                    0 <= yy < y && 0 <= xx < w && 0 <= c < 3 ==> #[trigger] rgb_at(data@, w as int, xx, yy, c)
                        == rgb_at(src, iw as int, ux0 + xx, uy0 + yy, c),
                forall|xx: int, c: int|
                    0 <= xx < x && 0 <= c < 3 ==> #[trigger] rgb_at(data@, w as int, xx, y as int, c)
                        == rgb_at(src, iw as int, ux0 + xx, uy0 + y, c),
            decreases w - x,
        {
            let ghost before = data@;
            let sx = ux0 + x;
            let sy = uy0 + y;
            proof {
                assert((sy * iw + sx) * 3 + 2 < 3 * iw * img.height) by (nonlinear_arith)
                    requires sx < iw, sy < img.height;
                assert(sy * iw + sx < iw * img.height) by (nonlinear_arith)
                    requires sx < iw, sy < img.height;
            }
            let k = (sy * iw + sx) * 3;
            data.push(img.data[k]);
            data.push(img.data[k + 1]);
            data.push(img.data[k + 2]);
            proof {
                assert(data@[before.len() as int] == src[k as int]);
                assert(data@[before.len() as int + 1] == src[k + 1]);
                assert(data@[before.len() as int + 2] == src[k + 2]);
                assert((y * w + x) * 3 + 3 == (y * w + (x + 1)) * 3) by (nonlinear_arith);
                assert forall|yy: int, xx: int, c: int|
                    0 <= yy < y && 0 <= xx < w && 0 <= c < 3 implies #[trigger] rgb_at(
                        data@,
                        w as int,
                        xx,
                        yy,
                        c,
                    ) == rgb_at(src, iw as int, ux0 + xx, uy0 + yy, c) by {
                    assert((yy * w + xx) * 3 + c < (y * w) * 3) by (nonlinear_arith)
                        requires 0 <= yy < y, 0 <= xx < w, 0 <= c < 3;
                    assert((y * w) * 3 <= (y * w + x) * 3);
                    assert(data@[(yy * w + xx) * 3 + c] == before[(yy * w + xx) * 3 + c]);
                    assert(rgb_at(before, w as int, xx, yy, c) == rgb_at(data@, w as int, xx, yy, c));
                }
                assert forall|xx: int, c: int|
                    0 <= xx < x + 1 && 0 <= c < 3 implies #[trigger] rgb_at(
                        data@,
                        w as int,
                        xx,
                        y as int,
                        c,
                    ) == rgb_at(src, iw as int, ux0 + xx, uy0 + y, c) by {
                    if xx < x {
                        assert((y * w + xx) * 3 + c < (y * w + x) * 3) by (nonlinear_arith)
                            requires 0 <= xx < x, 0 <= c < 3;
                        assert(data@[(y * w + xx) * 3 + c] == before[(y * w + xx) * 3 + c]);
                        assert(rgb_at(before, w as int, xx, y as int, c) == rgb_at(
                            data@,
                            w as int,
                            xx,
                            y as int,
                            c,
                        ));
                    } else {
                        assert((y * w + xx) * 3 + c == before.len() + c);
                    }
                }
            }
            x = x + 1;
        }
        proof {
            assert((y * w + w) * 3 == ((y + 1) * w) * 3) by (nonlinear_arith);
        }
        y = y + 1;
    }
    proof {
        assert((h * w) * 3 == 3 * w * h) by (nonlinear_arith);
    }
    RgbPixels { width: w as u32, height: h as u32, data }
}

} // verus!
