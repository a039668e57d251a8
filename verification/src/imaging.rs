//! Single-channel pixel buffers and the morphology and contour tracing that the
//! layout pipeline runs on them.
use vstd::prelude::*;

use crate::layout::{build_layout, Contour, ContourKeep, LayoutConfig, LayoutTree, contours_wf, MAX_COORD};

verus! {

/// A row-major 8-bit grayscale image.
#[derive(Debug, Clone)]
pub struct GrayPixels {
    pub width: u32,
    pub height: u32,
    pub pixels: Vec<u8>,
}

impl GrayPixels {
    pub open spec fn wf(self) -> bool {
        self.pixels@.len() == self.width * self.height
    }

    /// An equal copy.
    pub fn duplicate(&self) -> (r: GrayPixels)
        ensures
            r.width == self.width,
            r.height == self.height,
            r.pixels@ == self.pixels@,
    {
        let pixels = self.pixels.clone();
        assert(pixels@ =~= self.pixels@);
        GrayPixels { width: self.width, height: self.height, pixels }
    }
}

/// Pixels `i` and `j` of a row-major image of width `w` are at chessboard
/// distance at most `k`.
pub open spec fn within_chessboard(w: int, i: int, j: int, k: int) -> bool {
    let dx = i % w - j % w;
    let dy = i / w - j / w;
    -k <= dx <= k && -k <= dy <= k
}

/// Largest distance the distance transform records for an image.
pub open spec fn distance_cap(w: int, h: int) -> int {
    if w + h <= 255 { w + h } else { 255 }
}

/// Dilation with the chessboard norm: a pixel becomes 255 when a non-zero pixel
/// lies within distance `k` (or when the recorded distances of the image cannot
/// exceed `k`), and 0 otherwise.
pub open spec fn spec_dilate(w: u32, h: u32, px: Seq<u8>, k: u8) -> Seq<u8> {
    Seq::new(
        px.len(),
        |i: int|
            if (exists|j: int|
                0 <= j < px.len() && px[j] > 0 && within_chessboard(w as int, i, j, k as int))
                || distance_cap(w as int, h as int) <= k {
                255u8
            } else {
                0u8
            },
    )
}

/// Erosion with the chessboard norm: a pixel becomes 0 when a zero pixel lies
/// within distance `k` (or when the recorded distances of the image cannot exceed
/// `k`), and 255 otherwise.
pub open spec fn spec_erode(w: u32, h: u32, px: Seq<u8>, k: u8) -> Seq<u8> {
    Seq::new(
        px.len(),
        |i: int|
            if (exists|j: int|
                0 <= j < px.len() && px[j] == 0 && within_chessboard(w as int, i, j, k as int))
                || distance_cap(w as int, h as int) <= k {
                0u8
            } else {
                255u8
            },
    )
}

/// `imageproc::morphology::dilate` with the `LInf` norm. Its source computes the
/// chessboard distance to the nearest non-zero pixel, capped at `min(w + h, 255)`,
/// and sets a pixel to 255 when that distance is at most `k`, else to 0. The cap
/// is computed as a `u32` sum, so `w + h` must fit one.
#[verifier::external_body]
fn dilate_linf(src: &GrayPixels, k: u8) -> (out: GrayPixels)
    requires
        src.wf(),
        src.width + src.height <= u32::MAX,
    ensures
        out.width == src.width,
        out.height == src.height,
        out.pixels@ == spec_dilate(src.width, src.height, src.pixels@, k),
{
    let img = image::GrayImage::from_raw(src.width, src.height, src.pixels.clone()).unwrap();
    let out = imageproc::morphology::dilate(&img, imageproc::distance_transform::Norm::LInf, k);
    GrayPixels { width: src.width, height: src.height, pixels: out.into_raw() }
}

/// `imageproc::morphology::erode` with the `LInf` norm. Its source computes the
/// chessboard distance to the nearest zero pixel, capped at `min(w + h, 255)`, and
/// sets a pixel to 0 when that distance is at most `k`, else to 255. The cap is
/// computed as a `u32` sum, so `w + h` must fit one.
#[verifier::external_body]
fn erode_linf(src: &GrayPixels, k: u8) -> (out: GrayPixels)
    requires
        src.wf(),
        src.width + src.height <= u32::MAX,
    ensures
        out.width == src.width,
        out.height == src.height,
        out.pixels@ == spec_erode(src.width, src.height, src.pixels@, k),
{
    let img = image::GrayImage::from_raw(src.width, src.height, src.pixels.clone()).unwrap();
    let out = imageproc::morphology::erode(&img, imageproc::distance_transform::Norm::LInf, k);
    GrayPixels { width: src.width, height: src.height, pixels: out.into_raw() }
}

/// What `imageproc::contours::find_contours` returns for an image: per border, its
/// points as `(x, y)`, whether it is a hole border, and its parent's index.
pub uninterp spec fn traced_borders(width: u32, height: u32, pixels: Seq<u8>) -> Seq<
    (Seq<(u32, u32)>, bool, Option<usize>),
>;

/// `imageproc::contours::find_contours` (Suzuki–Abe border following). Besides
/// naming the result, the contract states what its source shows: every border has
/// at least one point, every point lies inside the image, and a parent border is
/// always found, and listed, before its children.
#[verifier::external_body]
fn trace_borders(src: &GrayPixels) -> (out: Vec<Contour>)
    requires
        src.wf(),
        src.width <= i32::MAX,
        src.height <= i32::MAX,
    ensures
        out@.len() == traced_borders(src.width, src.height, src.pixels@).len(),
        forall|i: int|
            0 <= i < out@.len() ==> {
                let t = traced_borders(src.width, src.height, src.pixels@)[i];
                &&& (#[trigger] out@[i]).points@ == t.0
                &&& out@[i].is_hole == t.1
                &&& out@[i].parent == t.2
            },
        forall|i: int|
            0 <= i < out@.len() ==> {
                let c = #[trigger] out@[i];
                &&& c.points@.len() > 0
                &&& forall|k: int|
                    0 <= k < c.points@.len() ==> c.points@[k].0 < src.width && c.points@[k].1
                        < src.height
                &&& (c.parent matches Some(p) ==> p < i)
            },
{
    let img = image::GrayImage::from_raw(src.width, src.height, src.pixels.clone()).unwrap();
    imageproc::contours::find_contours::<u32>(&img).into_iter().map(|c| Contour {
        points: c.points.iter().map(|p| (p.x, p.y)).collect(),
        is_hole: c.border_type == imageproc::contours::BorderType::Hole,
        parent: c.parent,
    }).collect()
}

/// Thicken edge pixels so contour tracing can close gaps.
pub fn dilate_edges(edges: &GrayPixels, radius: u8) -> (out: GrayPixels)
    requires
        edges.wf(),
        edges.width + edges.height <= u32::MAX,
    ensures
        out.wf(),
        out.width == edges.width,
        out.height == edges.height,
        out.pixels@ == spec_dilate(edges.width, edges.height, edges.pixels@, radius),
{
    dilate_linf(edges, radius)
}

pub open spec fn spec_close(w: u32, h: u32, px: Seq<u8>, kernel_size: u32) -> Seq<u8> {
    if kernel_size <= 1 {
        px
    } else {
        let k = (kernel_size % 256) as u8;
        spec_erode(w, h, spec_dilate(w, h, px, k), k)
    }
}

/// Morphological close (dilate, then erode) to connect broken UI borders; the
/// kernel size is taken modulo 256, and sizes up to 1 leave the image unchanged.
pub fn close_gaps(src: &GrayPixels, kernel_size: u32) -> (out: GrayPixels)
    requires
        src.wf(),
        src.width + src.height <= u32::MAX,
    ensures
        out.wf(),
        out.width == src.width,
        out.height == src.height,
        out.pixels@ == spec_close(src.width, src.height, src.pixels@, kernel_size),
{
    if kernel_size <= 1 {
        return src.duplicate();
    }
    let k = (kernel_size % 256) as u8;
    let dilated = dilate_linf(src, k);
    erode_linf(&dilated, k)
}

/// Trace the borders of the foreground regions of an image.
pub fn find_contours(src: &GrayPixels) -> (out: Vec<Contour>)
    requires
        src.wf(),
        src.width <= i32::MAX,
        src.height <= i32::MAX,
    ensures
        contours_wf(out@),
        crate::layout::contours_within(out@, src.width, src.height),
        out@.len() == traced_borders(src.width, src.height, src.pixels@).len(),
        forall|i: int|
            0 <= i < out@.len() ==> {
                let t = traced_borders(src.width, src.height, src.pixels@)[i];
                &&& (#[trigger] out@[i]).points@ == t.0
                &&& out@[i].is_hole == t.1
                &&& out@[i].parent == t.2
            },
{
    let out = trace_borders(src);
    assert forall|i: int| 0 <= i < out@.len() implies crate::layout::points_wf(
        #[trigger] out@[i].points@,
    ) && (out@[i].parent matches Some(p) ==> p < i) by {
        let c = out@[i];
        assert forall|k: int| 0 <= k < c.points@.len() implies c.points@[k].0 <= MAX_COORD
            && c.points@[k].1 <= MAX_COORD by {
            assert(c.points@[k].0 < src.width);
            assert(c.points@[k].1 < src.height);
        }
    }
    out
}

/// Output of the layout pipeline from an edge map: the layout tree and the
/// intermediate images and contours.
#[derive(Debug)]
pub struct LayoutOutput {
    pub dilated: GrayPixels,
    pub closed: GrayPixels,
    pub contours: Vec<Contour>,
    pub layout: LayoutTree,
}

/// Run the layout pipeline on an edge map: dilate the edges by 1, close gaps with
/// `config.close_kernel` (when it is positive), trace the contours and build the
/// layout tree from them.
pub fn extract_layout_from_edges(edges: &GrayPixels, config: &LayoutConfig) -> (out: LayoutOutput)
    requires
        edges.wf(),
        edges.width <= i32::MAX,
        edges.height <= i32::MAX,
    ensures
        out.dilated.pixels@ == spec_dilate(edges.width, edges.height, edges.pixels@, 1),
        out.closed.pixels@ == (if config.close_kernel > 0 {
            spec_close(edges.width, edges.height, out.dilated.pixels@, config.close_kernel)
        } else {
            out.dilated.pixels@
        }),
        out.contours@.len() == traced_borders(edges.width, edges.height, out.closed.pixels@).len(),
        forall|i: int|
            0 <= i < out.contours@.len() ==> {
                let t = traced_borders(edges.width, edges.height, out.closed.pixels@)[i];
                &&& (#[trigger] out.contours@[i]).points@ == t.0
                &&& out.contours@[i].is_hole == t.1
                &&& out.contours@[i].parent == t.2
            },
        crate::layout::is_layout_tree(
            out.contours@,
            *config,
            crate::layout::screen_bounds(edges.width, edges.height),
            out.layout.before_prune,
        ),
        crate::layout::pruned(out.layout.before_prune, out.layout.root, *config),
        crate::layout::tree_within(
            out.layout.before_prune,
            crate::layout::screen_bounds(edges.width, edges.height),
        ),
        crate::layout::tree_within(
            out.layout.root,
            crate::layout::screen_bounds(edges.width, edges.height),
        ),
        out.layout.classes@.len() == out.contours@.len(),
        forall|i: int|
            0 <= i < out.contours@.len() ==> #[trigger] out.layout.classes@[i]
                == crate::layout::contour_class(out.contours@, *config, i),
        out.layout.filter_stats.total == out.contours@.len(),
        out.layout.filter_stats.kept == crate::layout::count_class(
            out.contours@,
            *config,
            ContourKeep::Yes,
            out.contours@.len() as int,
        ),
        out.layout.filter_stats.dropped_hole == crate::layout::count_class(
            out.contours@,
            *config,
            ContourKeep::HoleTooSmall,
            out.contours@.len() as int,
        ),
        out.layout.filter_stats.dropped_area == crate::layout::count_class(
            out.contours@,
            *config,
            ContourKeep::AreaTooSmall,
            out.contours@.len() as int,
        ),
        out.layout.filter_stats.dropped_thin == crate::layout::count_class(
            out.contours@,
            *config,
            ContourKeep::TooThin,
            out.contours@.len() as int,
        ),
        out.layout.filter_stats.kept + out.layout.filter_stats.dropped_hole
            + out.layout.filter_stats.dropped_area + out.layout.filter_stats.dropped_thin
            == out.layout.filter_stats.total,
{
    let dilated = dilate_edges(edges, 1);
    let closed = if config.close_kernel > 0 {
        close_gaps(&dilated, config.close_kernel)
    } else {
        dilated.duplicate()
    };
    let contours = find_contours(&closed);
    let layout = build_layout(&contours, closed.width, closed.height, config);
    LayoutOutput { dilated, closed, contours, layout }
}

} // verus!
