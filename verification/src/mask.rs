//! The ink mask of an icon crop: background and threshold estimation, the choice
//! between dark and light ink, and the 256×256 black-on-white rendering handed to
//! the embedder.
use vstd::prelude::*;

use crate::imaging::GrayPixels;
use crate::sorting::{spec_stable_order, stable_order};
use crate::types::Ratio;

verus! {

/// Side of the square image the embedder takes.
pub const INPUT_SIZE: u32 = 256;

/// A row-major 8-bit RGB image, three bytes per pixel.
#[derive(Debug, Clone)]
pub struct RgbPixels {
    pub width: u32,
    pub height: u32,
    pub data: Vec<u8>,
}

/// What resampling `data` (a `w`×`h` image of `channels` bytes per pixel) to
/// `nw`×`nh` with the triangle filter gives.
pub uninterp spec fn resized_pixels(channels: nat, w: u32, h: u32, data: Seq<u8>, nw: u32, nh: u32) -> Seq<u8>;

/// Sizes for which the buffers that resampling allocates (a `w`×`nh` and an
/// `nw`×`nh` image of four values per pixel) have a length that fits in `usize`.
pub open spec fn resize_sizes_ok(w: u32, h: u32, nw: u32, nh: u32) -> bool {
    &&& 4 * w * nh <= usize::MAX
    &&& 4 * nw * nh <= usize::MAX
}

/// Resamples a grayscale image with `image::imageops::resize` and the triangle
/// filter. Claimed: the result has `nw * nh` bytes, it is a function of the
/// arguments, and it is a copy when the size does not change.
#[verifier::external_body]
fn resize_gray(w: u32, h: u32, data: Vec<u8>, nw: u32, nh: u32) -> (r: Vec<u8>)
    requires
        data@.len() == w * h,
        resize_sizes_ok(w, h, nw, nh),
    ensures
        r@ == resized_pixels(1, w, h, data@, nw, nh),
        r@.len() == nw * nh,
        (nw == w && nh == h) ==> r@ == data@,
{
    let img = image::GrayImage::from_raw(w, h, data).unwrap();
    image::imageops::resize(&img, nw, nh, image::imageops::FilterType::Triangle).into_raw()
}

/// Resamples an RGB image with `image::imageops::resize` and the triangle filter.
/// Claimed: the result has `3 * nw * nh` bytes, it is a function of the arguments,
/// and it is a copy when the size does not change.
#[verifier::external_body]
fn resize_rgb(w: u32, h: u32, data: Vec<u8>, nw: u32, nh: u32) -> (r: Vec<u8>)
    requires
        data@.len() == 3 * w * h,
        resize_sizes_ok(w, h, nw, nh),
    ensures
        r@ == resized_pixels(3, w, h, data@, nw, nh),
        r@.len() == 3 * nw * nh,
        (nw == w && nh == h) ==> r@ == data@,
{
    let img = image::RgbImage::from_raw(w, h, data).unwrap();
    image::imageops::resize(&img, nw, nh, image::imageops::FilterType::Triangle).into_raw()
}

pub open spec fn byte_keys(s: Seq<u8>) -> Seq<(i64, i64)> {
    Seq::new(s.len(), |k: int| (s[k] as i64, 0i64))
}

/// The upper median of a non-empty list of bytes.
pub open spec fn median_byte(s: Seq<u8>) -> u8 {
    s[spec_stable_order(byte_keys(s), s.len() as int)[(s.len() / 2) as int] as int]
}

fn median_of(s: &Vec<u8>) -> (m: u8)
    requires
        s@.len() > 0,
    ensures
        m == median_byte(s@),
{
    let mut keys: Vec<(i64, i64)> = Vec::new();
    let mut k: usize = 0;
    while k < s.len()
        invariant
            k <= s@.len(),
            keys@ == byte_keys(s@).take(k as int),
        decreases s@.len() - k,
    {
        keys.push((s[k] as i64, 0i64));
        assert(keys@ =~= byte_keys(s@).take(k + 1));
        k = k + 1;
    }
    assert(keys@ =~= byte_keys(s@));
    let order = stable_order(&keys);
    let i = order[s.len() / 2];
    s[i]
}

/// The border pixels of a `w`×`h` image, in sampling order: for each column the
/// top and the bottom pixel, then for each inner row the left and the right pixel.
pub open spec fn border_samples(w: int, h: int, px: Seq<u8>) -> Seq<u8> {
    let inner = if h >= 2 { h - 2 } else { 0 };
    Seq::new(
        (2 * w) as nat,
        |k: int| if k % 2 == 0 { px[k / 2] } else { px[(h - 1) * w + k / 2] },
    ) + Seq::new(
        (2 * inner) as nat,
        |k: int| if k % 2 == 0 { px[(1 + k / 2) * w] } else { px[(1 + k / 2) * w + w - 1] },
    )
}

/// Background level: 255 for an empty image, else the upper median of the border.
pub open spec fn spec_background(w: u32, h: u32, px: Seq<u8>) -> u8 {
    if w == 0 || h == 0 {
        255
    } else {
        median_byte(border_samples(w as int, h as int, px))
    }
}

/// Background level of an icon crop.
pub fn estimate_background(img: &GrayPixels) -> (bg: u8)
    requires
        img.wf(),
    ensures
        bg == spec_background(img.width, img.height, img.pixels@),
{
    let w = img.width as usize;
    let h = img.height as usize;
    if w == 0 || h == 0 {
        return 255;
    }
    let ghost px = img.pixels@;
    let total = img.pixels.len();
    proof {
        assert((h as int - 1) * w + w == h * w) by (nonlinear_arith);
        assert(0 <= (h as int - 1) * w) by (nonlinear_arith)
            requires h >= 1;
    }
    let last_row = (h - 1) * w;
    let mut samples: Vec<u8> = Vec::new();
    let mut x: usize = 0;
    while x < w
        invariant
            x <= w,
            w == img.width,
            h == img.height,
            px == img.pixels@,
            total == px.len(),
            px.len() == w * h,
            last_row == (h - 1) * w,
            last_row + w == w * h,
            samples@ == Seq::new(
                (2 * x) as nat,
                |k: int| if k % 2 == 0 { px[k / 2] } else { px[(h - 1) * w + k / 2] },
            ),
        decreases w - x,
    {
        samples.push(img.pixels[x]);
        samples.push(img.pixels[last_row + x]);
        assert(samples@ =~= Seq::new(
            (2 * (x + 1)) as nat,
            |k: int| if k % 2 == 0 { px[k / 2] } else { px[(h - 1) * w + k / 2] },
        ));
        x = x + 1;
    }
    let ghost top = samples@;
    let inner = if h >= 2 { h - 2 } else { 0 };
    let mut y: usize = 0;
    while y < inner
        invariant
            y <= inner,
            inner == (if h >= 2 { h - 2 } else { 0 }),
            w == img.width,
            h == img.height,
            w >= 1,
            px == img.pixels@,
            total == px.len(),
            px.len() == w * h,
            samples@ == top + Seq::new(
                (2 * y) as nat,
                |k: int| if k % 2 == 0 { px[(1 + k / 2) * w] } else { px[(1 + k / 2) * w + w - 1] },
            ),
        decreases inner - y,
    {
        proof {
            assert((y + 1) * w + w <= w * h) by (nonlinear_arith)
                requires y + 2 <= h, w >= 1;
        }
        let row = (y + 1) * w;
        samples.push(img.pixels[row]);
        samples.push(img.pixels[row + w - 1]);
        assert(samples@ =~= top + Seq::new(
            (2 * (y + 1)) as nat,
            |k: int| if k % 2 == 0 { px[(1 + k / 2) * w] } else { px[(1 + k / 2) * w + w - 1] },
        ));
        y = y + 1;
    }
    assert(samples@ =~= border_samples(w as int, h as int, px));
    if samples.len() == 0 {
        return 128;
    }
    median_of(&samples)
}

pub open spec fn abs_diff(a: u8, b: u8) -> u8 {
    if a >= b { (a - b) as u8 } else { (b - a) as u8 }
}

/// The non-zero distances of the pixels from `bg`, in pixel order.
pub open spec fn nonzero_diffs(px: Seq<u8>, bg: u8, n: int) -> Seq<u8>
    decreases n,
{
    if n <= 0 {
        Seq::empty()
    } else {
        let rest = nonzero_diffs(px, bg, n - 1);
        let d = abs_diff(px[n - 1], bg);
        if d > 0 { rest.push(d) } else { rest }
    }
}

/// Ink threshold: the upper median of the non-zero distances from the
/// background, clamped to 12..=48; 24 when every pixel is background.
pub open spec fn spec_threshold(px: Seq<u8>, bg: u8) -> u8 {
    let d = nonzero_diffs(px, bg, px.len() as int);
    if d.len() == 0 {
        24
    } else {
        let m = median_byte(d);
        if m < 12 { 12 } else if m > 48 { 48 } else { m }
    }
}

/// Ink threshold of an icon crop against background `bg`.
pub fn adaptive_threshold(img: &GrayPixels, bg: u8) -> (t: u8)
    ensures
        t == spec_threshold(img.pixels@, bg),
{
    let mut diffs: Vec<u8> = Vec::new();
    let mut i: usize = 0;
    while i < img.pixels.len()
        invariant
            i <= img.pixels@.len(),
            diffs@ == nonzero_diffs(img.pixels@, bg, i as int),
        decreases img.pixels@.len() - i,
    {
        let v = img.pixels[i];
        let d = if v >= bg { v - bg } else { bg - v };
        if d > 0 {
            diffs.push(d);
        }
        i = i + 1;
    }
    if diffs.len() == 0 {
        return 24;
    }
    let m = median_of(&diffs);
    if m < 12 {
        12
    } else if m > 48 {
        48
    } else {
        m
    }
}

/// Whether a pixel is ink: for dark ink, `v + t` (saturating) below the
/// background; for light ink, `v - t` (saturating) above it.
pub open spec fn is_ink(v: u8, t: u8, bg: u8, dark: bool) -> bool {
    if dark {
        (if v + t > 255 { 255 } else { v + t }) < bg
    } else {
        (if v - t < 0 { 0 } else { v - t }) > bg
    }
}

/// The ink mask (1 for ink, 0 for background) of a `w`×`h` image.
pub open spec fn spec_ink_mask(w: u32, h: u32, px: Seq<u8>, dark: bool) -> Seq<u8> {
    let bg = spec_background(w, h, px);
    let t = spec_threshold(px, bg);
    Seq::new(px.len(), |i: int| if is_ink(px[i], t, bg, dark) { 1u8 } else { 0u8 })
}

/// The ink mask (1 for ink, 0 for background) of an icon crop.
pub fn ink_mask_from_gray(img: &GrayPixels, dark_icon: bool) -> (m: Vec<u8>)
    requires
        img.wf(),
    ensures
        m@ == spec_ink_mask(img.width, img.height, img.pixels@, dark_icon),
{
    let bg = estimate_background(img);
    let t = adaptive_threshold(img, bg);
    let mut out: Vec<u8> = Vec::new();
    let mut i: usize = 0;
    while i < img.pixels.len()
        invariant
            i <= img.pixels@.len(),
            bg == spec_background(img.width, img.height, img.pixels@),
            t == spec_threshold(img.pixels@, bg),
            out@ == spec_ink_mask(img.width, img.height, img.pixels@, dark_icon).take(i as int),
        decreases img.pixels@.len() - i,
    {
        let v = img.pixels[i];
        let ink = if dark_icon {
            v.saturating_add(t) < bg
        } else {
            v.saturating_sub(t) > bg
        };
        out.push(if ink { 1 } else { 0 });
        assert(out@ =~= spec_ink_mask(img.width, img.height, img.pixels@, dark_icon).take(i + 1));
        i = i + 1;
    }
    assert(out@ =~= spec_ink_mask(img.width, img.height, img.pixels@, dark_icon));
    out
}

/// Number of non-zero entries among the first `n`.
pub open spec fn count_nonzero(s: Seq<u8>, n: int) -> int
    decreases n,
{
    if n <= 0 {
        0
    } else {
        count_nonzero(s, n - 1) + if s[n - 1] > 0 { 1int } else { 0int }
    }
}

fn ink_count(m: &Vec<u8>) -> (c: usize)
    ensures
        c == count_nonzero(m@, m@.len() as int),
{
    let mut c: usize = 0;
    let mut i: usize = 0;
    while i < m.len()
        invariant
            i <= m@.len(),
            c == count_nonzero(m@, i as int),
            c <= i,
        decreases m@.len() - i,
    {
        if m[i] > 0 {
            c = c + 1;
        }
        i = i + 1;
    }
    c
}

/// The ink covers between 3% and 72% of the image (inclusive).
pub open spec fn spec_ink_ratio_ok(ink: int, total: int) -> bool {
    total != 0 && 3 * total <= 100 * ink && 100 * ink <= 72 * total
}

/// Whether `ink` pixels out of `total` is a plausible icon coverage: from 3% to 72%.
pub fn ink_ratio_ok(ink: usize, total: usize) -> (r: bool)
    ensures
        r == spec_ink_ratio_ok(ink as int, total as int),
{
    if total == 0 {
        return false;
    }
    let low = Ratio { num: 3, den: 100 };
    let high = Ratio { num: 72, den: 100 };
    if ink as u64 > 0x7fff_ffff_ffff_ffff || total as u64 > 0x7fff_ffff_ffff_ffff {
        let i = ink as u128;
        let t = total as u128;
        return 3 * t <= 100 * i && 100 * i <= 72 * t;
    }
    low.bounds_from_below(ink as i64, total as i64) && high.bounds_from_above(ink as i64, total as i64)
}

/// Which polarity to keep: `true` for the dark-ink mask. A plausible coverage wins;
/// between two plausible or two implausible ones, the smaller ink count wins, and
/// counts within 8 of each other keep dark ink.
pub open spec fn prefer_dark(dark_ink: int, light_ink: int, total: int) -> bool {
    let dark_ok = spec_ink_ratio_ok(dark_ink, total);
    let light_ok = spec_ink_ratio_ok(light_ink, total);
    if dark_ok && light_ok {
        dark_ink <= light_ink
    } else if dark_ok {
        true
    } else if light_ok {
        false
    } else {
        -8 <= dark_ink - light_ink <= 8 || dark_ink < light_ink
    }
}

/// The ink mask of a crop resampled to `size`×`size`, with the polarity chosen by
/// `prefer_dark`; `true` with the dark-ink mask.
pub fn normalize_query_mask(gray_crop: &GrayPixels, size: u32) -> (r: (Vec<u8>, bool))
    requires
        gray_crop.wf(),
        size * size <= u32::MAX,
        resize_sizes_ok(gray_crop.width, gray_crop.height, size, size),
    ensures
        ({
            let img = resized_pixels(
                1,
                gray_crop.width,
                gray_crop.height,
                gray_crop.pixels@,
                size,
                size,
            );
            let dark = spec_ink_mask(size, size, img, true);
            let light = spec_ink_mask(size, size, img, false);
            &&& r.1 == prefer_dark(
                count_nonzero(dark, dark.len() as int),
                count_nonzero(light, light.len() as int),
                size * size,
            )
            &&& r.0@ == (if r.1 { dark } else { light })
        }),
{
    let data = gray_crop.pixels.clone();
    assert(data@ =~= gray_crop.pixels@);
    let px = resize_gray(gray_crop.width, gray_crop.height, data, size, size);
    let resized = GrayPixels { width: size, height: size, pixels: px };
    let dark = ink_mask_from_gray(&resized, true);
    let light = ink_mask_from_gray(&resized, false);
    let dark_ink = ink_count(&dark);
    let light_ink = ink_count(&light);
    let total = (size as usize) * (size as usize);
    let dark_ok = ink_ratio_ok(dark_ink, total);
    let light_ok = ink_ratio_ok(light_ink, total);
    let use_dark = if dark_ok && light_ok {
        dark_ink <= light_ink
    } else if dark_ok {
        true
    } else if light_ok {
        false
    } else {
        let diff = if dark_ink >= light_ink { dark_ink - light_ink } else { light_ink - dark_ink };
        diff <= 8 || dark_ink < light_ink
    };
    if use_dark {
        (dark, true)
    } else {
        (light, false)
    }
}


/// A `size`×`size` mask drawn black on white: pixel `p` (row-major) is black when
/// mask entry `p` exists and is non-zero.
pub open spec fn mask_rgb(mask: Seq<u8>, size: u32) -> Seq<u8> {
    Seq::new(
        (3 * size * size) as nat,
        |k: int| if k / 3 < mask.len() && mask[k / 3] > 0 { 0u8 } else { 255u8 },
    )
}

/// The embedder input for a mask: black ink on white, resampled to
/// `INPUT_SIZE`×`INPUT_SIZE` unless the mask already has that size.
pub fn mask_to_rgb256(mask: &Vec<u8>, mask_size: u32) -> (r: RgbPixels)
    requires
        mask_size * mask_size <= 0x1_0000_0000,
        3 * mask_size * mask_size <= usize::MAX,
    ensures
        r.width == INPUT_SIZE,
        r.height == INPUT_SIZE,
        r.data@ == (if mask_size == INPUT_SIZE {
            mask_rgb(mask@, mask_size)
        } else {
            resized_pixels(3, mask_size, mask_size, mask_rgb(mask@, mask_size), INPUT_SIZE, INPUT_SIZE)
        }),
{
    proof {
        assert(3 * mask_size * mask_size == 3 * (mask_size * mask_size)) by (nonlinear_arith);
    }
    let n = (mask_size as usize) * (mask_size as usize);
    let ghost full = mask_rgb(mask@, mask_size);
    let mut data: Vec<u8> = Vec::new();
    let mut p: usize = 0;
    while p < n
        invariant
            n == mask_size * mask_size,
            full == mask_rgb(mask@, mask_size),
            full.len() == 3 * n,
            p <= n,
            data@ == full.take(3 * p),
        decreases n - p,
    {
        let black = p < mask.len() && mask[p] > 0;
        let v: u8 = if black { 0 } else { 255 };
        let ghost before = data@;
        data.push(v);
        data.push(v);
        data.push(v);
        assert forall|k: int| 0 <= k < 3 * (p + 1) implies #[trigger] data@[k] == full[k] by {
            if k < 3 * p {
                assert(data@[k] == before[k]);
            } else {
                assert(k / 3 == p);
            }
        }
        assert(data@ =~= full.take(3 * (p + 1)));
        p = p + 1;
    }
    assert(data@ =~= full);
    proof {
        assert(mask_size <= 0x10000) by (nonlinear_arith)
            requires mask_size * mask_size <= 0x1_0000_0000;
        assert(4 * mask_size * INPUT_SIZE <= 0x400_0000) by (nonlinear_arith)
            requires mask_size <= 0x10000, INPUT_SIZE == 256;
    }
    if mask_size != INPUT_SIZE {
        let out = resize_rgb(mask_size, mask_size, data, INPUT_SIZE, INPUT_SIZE);
        RgbPixels { width: INPUT_SIZE, height: INPUT_SIZE, data: out }
    } else {
        RgbPixels { width: INPUT_SIZE, height: INPUT_SIZE, data }
    }
}

/// The embedder input for an icon crop: its ink mask at `mask_size`, drawn black
/// on white at `INPUT_SIZE`.
pub fn icon_crop_to_rgb256(gray_crop: &GrayPixels, mask_size: u32) -> (r: RgbPixels)
    requires
        gray_crop.wf(),
        mask_size <= 0xffff,
        resize_sizes_ok(gray_crop.width, gray_crop.height, mask_size, mask_size),
    ensures
        r.width == INPUT_SIZE,
        r.height == INPUT_SIZE,
        ({
            let img = resized_pixels(
                1,
                gray_crop.width,
                gray_crop.height,
                gray_crop.pixels@,
                mask_size,
                mask_size,
            );
            let dark = spec_ink_mask(mask_size, mask_size, img, true);
            let light = spec_ink_mask(mask_size, mask_size, img, false);
            let m = if prefer_dark(
                count_nonzero(dark, dark.len() as int),
                count_nonzero(light, light.len() as int),
                mask_size * mask_size,
            ) {
                dark
            } else {
                light
            };
            r.data@ == (if mask_size == INPUT_SIZE {
                mask_rgb(m, mask_size)
            } else {
                resized_pixels(3, mask_size, mask_size, mask_rgb(m, mask_size), INPUT_SIZE, INPUT_SIZE)
            })
        }),
{
    proof {
        assert(mask_size * mask_size <= 0xffff * 0xffff) by (nonlinear_arith)
            requires mask_size <= 0xffff;
        assert(3 * mask_size * mask_size <= 4 * mask_size * mask_size) by (nonlinear_arith);
    }
    let (mask, _) = normalize_query_mask(gray_crop, mask_size);
    mask_to_rgb256(&mask, mask_size)
}


/// When either polarity gives a plausible coverage, the chosen one does.
pub proof fn lemma_plausible_coverage_wins(dark_ink: int, light_ink: int, total: int)
    ensures
        spec_ink_ratio_ok(dark_ink, total) || spec_ink_ratio_ok(light_ink, total) ==> (if prefer_dark(
            dark_ink,
            light_ink,
            total,
        ) {
            spec_ink_ratio_ok(dark_ink, total)
        } else {
            spec_ink_ratio_ok(light_ink, total)
        }),
{
}

/// When both polarities give a plausible coverage (3% to 72% of the pixels), the
/// one with fewer ink pixels is chosen, dark ink on a tie; when neither does, dark
/// ink is chosen exactly when it has fewer ink pixels or the counts are within 8.
pub proof fn lemma_fewer_ink_pixels_win(dark_ink: int, light_ink: int, total: int)
    ensures
        3 * total <= 100 * dark_ink <= 72 * total && 3 * total <= 100 * light_ink <= 72 * total
            && total != 0 ==> (prefer_dark(dark_ink, light_ink, total) <==> dark_ink <= light_ink),
        !spec_ink_ratio_ok(dark_ink, total) && !spec_ink_ratio_ok(light_ink, total) ==> (prefer_dark(
            dark_ink,
            light_ink,
            total,
        ) <==> (dark_ink < light_ink || -8 <= dark_ink - light_ink <= 8)),
{
}

} // verus!
