use vstd::prelude::*;

verus! {

/// Axis-aligned bounding box in pixel coordinates (origin top-left).
#[derive(Debug, Clone, Copy, PartialEq, Eq, Structural)]
pub struct Bounds {
    pub x: i32,
    pub y: i32,
    pub width: i32,
    pub height: i32,
}

/// A non-negative fraction `num / den` used for the ratio thresholds of the
/// layout and icon rules (an IoU limit, an area ratio, an aspect ratio).
#[derive(Debug, Clone, Copy, PartialEq, Eq, Structural)]
pub struct Ratio {
    pub num: u32,
    pub den: u32,
}

impl Ratio {
    pub open spec fn wf(self) -> bool {
        self.den > 0
    }

    /// `value / of <= self`, for a positive `of`.
    pub open spec fn spec_bounds_from_above(self, value: int, of: int) -> bool {
        value * self.den <= self.num * of
    }

    /// `value / of >= self`, for a positive `of`.
    pub open spec fn spec_bounds_from_below(self, value: int, of: int) -> bool {
        value * self.den >= self.num * of
    }

    pub fn new(num: u32, den: u32) -> (r: Ratio)
        ensures
            r.num == num,
            r.den == den,
    {
        Ratio { num, den }
    }

    /// True iff `value / of <= num / den` (`of > 0`).
    pub fn bounds_from_above(&self, value: i64, of: i64) -> (r: bool)
        requires
            of > 0,
        ensures
            r == self.spec_bounds_from_above(value as int, of as int),
    {
        proof {
            assert((value as int) * (self.den as int) <= i64::MAX * u32::MAX) by (nonlinear_arith)
                requires value <= i64::MAX, 0 <= self.den <= u32::MAX;
            assert((value as int) * (self.den as int) >= i64::MIN * u32::MAX) by (nonlinear_arith)
                requires value >= i64::MIN, 0 <= self.den <= u32::MAX;
            assert(0 <= (self.num as int) * (of as int) <= u32::MAX * i64::MAX) by (nonlinear_arith)
                requires of <= i64::MAX, 0 < of, 0 <= self.num <= u32::MAX;
        }
        let lhs: i128 = (value as i128) * (self.den as i128);
        let rhs: i128 = (self.num as i128) * (of as i128);
        lhs <= rhs
    }

    /// True iff `value / of >= num / den` (`of > 0`).
    pub fn bounds_from_below(&self, value: i64, of: i64) -> (r: bool)
        requires
            of > 0,
        ensures
            r == self.spec_bounds_from_below(value as int, of as int),
    {
        proof {
            assert((value as int) * (self.den as int) <= i64::MAX * u32::MAX) by (nonlinear_arith)
                requires value <= i64::MAX, 0 <= self.den <= u32::MAX;
            assert((value as int) * (self.den as int) >= i64::MIN * u32::MAX) by (nonlinear_arith)
                requires value >= i64::MIN, 0 <= self.den <= u32::MAX;
            assert(0 <= (self.num as int) * (of as int) <= u32::MAX * i64::MAX) by (nonlinear_arith)
                requires of <= i64::MAX, 0 < of, 0 <= self.num <= u32::MAX;
        }
        let lhs: i128 = (value as i128) * (self.den as i128);
        let rhs: i128 = (self.num as i128) * (of as i128);
        lhs >= rhs
    }
}

pub open spec fn min_int(a: int, b: int) -> int {
    if a <= b { a } else { b }
}

pub open spec fn max_int(a: int, b: int) -> int {
    if a >= b { a } else { b }
}

impl Bounds {
    pub open spec fn spec_right(self) -> int {
        self.x + self.width
    }

    pub open spec fn spec_bottom(self) -> int {
        self.y + self.height
    }

    /// The right and bottom edges are representable as `i32`.
    pub open spec fn wf(self) -> bool {
        i32::MIN <= self.spec_right() <= i32::MAX && i32::MIN <= self.spec_bottom() <= i32::MAX
    }

    pub open spec fn spec_area(self) -> int {
        self.width * self.height
    }

    pub open spec fn spec_contains(self, other: Bounds) -> bool {
        &&& self.x <= other.x
        &&& self.y <= other.y
        &&& self.spec_right() >= other.spec_right()
        &&& self.spec_bottom() >= other.spec_bottom()
    }

    pub open spec fn overlap_w(self, other: Bounds) -> int {
        min_int(self.spec_right(), other.spec_right()) - max_int(self.x as int, other.x as int)
    }

    pub open spec fn overlap_h(self, other: Bounds) -> int {
        min_int(self.spec_bottom(), other.spec_bottom()) - max_int(self.y as int, other.y as int)
    }

    /// The overlap extents are representable as `i32`.
    pub open spec fn overlap_fits(self, other: Bounds) -> bool {
        &&& i32::MIN <= self.overlap_w(other) <= i32::MAX
        &&& i32::MIN <= self.overlap_h(other) <= i32::MAX
    }

    pub open spec fn spec_intersection_area(self, other: Bounds) -> int {
        max_int(self.overlap_w(other), 0) * max_int(self.overlap_h(other), 0)
    }

    pub open spec fn spec_union_area(self, other: Bounds) -> int {
        self.spec_area() + other.spec_area() - self.spec_intersection_area(other)
    }

    /// Intersection over union is at most `limit` (an empty intersection has IoU 0).
    pub open spec fn spec_iou_at_most(self, other: Bounds, limit: Ratio) -> bool {
        self.spec_intersection_area(other) <= 0 || limit.spec_bounds_from_above(
            self.spec_intersection_area(other),
            self.spec_union_area(other),
        )
    }

    pub fn new(x: i32, y: i32, width: i32, height: i32) -> (b: Bounds)
        ensures
            b.x == x,
            b.y == y,
            b.width == width,
            b.height == height,
    {
        Bounds { x, y, width, height }
    }

    pub fn right(&self) -> (r: i32)
        requires
            self.wf(),
        ensures
            r == self.spec_right(),
    {
        self.x + self.width
    }

    pub fn bottom(&self) -> (r: i32)
        requires
            self.wf(),
        ensures
            r == self.spec_bottom(),
    {
        self.y + self.height
    }

    pub fn area(&self) -> (r: i64)
        ensures
            r == self.spec_area(),
    {
        proof {
            assert(-0x8000_0000 * 0x7fff_ffff <= (self.width as int) * (self.height as int)
                <= 0x8000_0000 * 0x8000_0000) by (nonlinear_arith)
                requires
                    -0x8000_0000 <= self.width <= 0x7fff_ffff,
                    -0x8000_0000 <= self.height <= 0x7fff_ffff,
            ;
        }
        (self.width as i64) * (self.height as i64)
    }

    pub fn contains(&self, other: &Bounds) -> (r: bool)
        requires
            self.wf(),
            other.wf(),
        ensures
            r == self.spec_contains(*other),
    {
        self.x <= other.x && self.y <= other.y && self.right() >= other.right() && self.bottom()
            >= other.bottom()
    }

    pub fn intersection_area(&self, other: &Bounds) -> (r: i64)
        requires
            self.wf(),
            other.wf(),
            self.overlap_fits(*other),
        ensures
            r == self.spec_intersection_area(*other),
            r >= 0,
    {
        let x1 = if self.x >= other.x { self.x } else { other.x };
        let y1 = if self.y >= other.y { self.y } else { other.y };
        let sr = self.right();
        let or = other.right();
        let sb = self.bottom();
        let ob = other.bottom();
        let x2 = if sr <= or { sr } else { or };
        let y2 = if sb <= ob { sb } else { ob };
        let dw = x2 - x1;
        let dh = y2 - y1;
        let w: i64 = if dw >= 0 { dw as i64 } else { 0 };
        let h: i64 = if dh >= 0 { dh as i64 } else { 0 };
        proof {
            assert(0 <= (w as int) * (h as int) <= 0x7fff_ffff * 0x7fff_ffff) by (nonlinear_arith)
                requires 0 <= w <= 0x7fff_ffff, 0 <= h <= 0x7fff_ffff;
        }
        w * h
    }

    /// Whether the intersection over union of the two boxes is at most `limit`.
    pub fn iou_at_most(&self, other: &Bounds, limit: &Ratio) -> (r: bool)
        requires
            self.wf(),
            other.wf(),
            self.overlap_fits(*other),
        ensures
            r == self.spec_iou_at_most(*other, *limit),
    {
        let inter = self.intersection_area(other);
        if inter <= 0 {
            return true;
        }
        proof {
            lemma_positive_intersection_bounds(*self, *other);
        }
        let union = self.area() + other.area() - inter;
        limit.bounds_from_above(inter, union)
    }
}

/// A positive intersection is no larger than either box, so the union is positive.
pub proof fn lemma_positive_intersection_bounds(a: Bounds, b: Bounds)
    requires
        a.spec_intersection_area(b) > 0,
    ensures
        a.width > 0,
        a.height > 0,
        b.width > 0,
        b.height > 0,
        a.spec_intersection_area(b) <= a.spec_area(),
        a.spec_intersection_area(b) <= b.spec_area(),
        a.spec_union_area(b) >= a.spec_area(),
        a.spec_union_area(b) > 0,
        a.spec_area() <= 0x7fff_ffff * 0x7fff_ffff,
        b.spec_area() <= 0x7fff_ffff * 0x7fff_ffff,
{
    let w = max_int(a.overlap_w(b), 0);
    let h = max_int(a.overlap_h(b), 0);
    assert(w > 0 && h > 0) by (nonlinear_arith)
        requires w * h > 0, w >= 0, h >= 0;
    assert(w * h <= (a.width as int) * (a.height as int)) by (nonlinear_arith)
        requires 0 < w <= a.width, 0 < h <= a.height;
    assert(w * h <= (b.width as int) * (b.height as int)) by (nonlinear_arith)
        requires 0 < w <= b.width, 0 < h <= b.height;
    assert((a.width as int) * (a.height as int) > 0) by (nonlinear_arith)
        requires a.width > 0, a.height > 0;
    assert((a.width as int) * (a.height as int) <= 0x7fff_ffff * 0x7fff_ffff) by (nonlinear_arith)
        requires 0 < a.width <= 0x7fff_ffff, 0 < a.height <= 0x7fff_ffff;
    assert((b.width as int) * (b.height as int) <= 0x7fff_ffff * 0x7fff_ffff) by (nonlinear_arith)
        requires 0 < b.width <= 0x7fff_ffff, 0 < b.height <= 0x7fff_ffff;
}

/// What a node of the layout tree is. A confidence is carried as the bit pattern of
/// an IEEE-754 single-precision value, exactly as the recognizer produced it.
#[derive(Debug, Clone)]
pub enum UiElementKind {
    Root,
    Container,
    Text { content: String, confidence: Option<u32> },
    Icon { name: String, confidence: Option<u32> },
}

/// A node of the layout tree.
#[derive(Debug)]
pub struct UiElement {
    pub bounds: Bounds,
    pub kind: UiElementKind,
    pub children: Vec<UiElement>,
}

/// Why an extraction failed.
#[derive(Debug, Clone)]
pub enum ExtractError {
    Image(String),
    Ocr(String),
    EmptyLayout,
    ImageRead(String),
}

impl ExtractError {
    pub open spec fn spec_message(&self) -> Seq<char> {
        match self {
            ExtractError::Image(s) => "image error: "@ + s@,
            ExtractError::Ocr(s) => "OCR failed: "@ + s@,
            ExtractError::EmptyLayout => "image has no contours after filtering"@,
            ExtractError::ImageRead(s) => "failed to read image: "@ + s@,
        }
    }

    /// The error as a sentence.
    pub fn message(&self) -> (m: String)
        ensures
            m@ == self.spec_message(),
    {
        match self {
            ExtractError::Image(s) => {
                let mut m = String::from_str("image error: ");
                m.append(s.as_str());
                m
            },
            ExtractError::Ocr(s) => {
                let mut m = String::from_str("OCR failed: ");
                m.append(s.as_str());
                m
            },
            ExtractError::EmptyLayout => String::from_str("image has no contours after filtering"),
            ExtractError::ImageRead(s) => {
                let mut m = String::from_str("failed to read image: ");
                m.append(s.as_str());
                m
            },
        }
    }
}

/// An image error of the network runtime, reported as a recognition error; other
/// errors unchanged.
pub fn map_ncnn_err(err: ExtractError) -> (r: ExtractError)
    ensures
        match err {
            ExtractError::Image(m) => r == ExtractError::Ocr(m),
            _ => r == err,
        },
{
    match err {
        ExtractError::Image(msg) => ExtractError::Ocr(msg),
        other => other,
    }
}

/// The error as the sentence handed across the C interface.
pub fn map_extract_error(err: ExtractError) -> (m: String)
    ensures
        m@ == err.spec_message(),
{
    err.message()
}

/// Whether a model registry handle is released by its holder or lent to it.
#[derive(Debug, Clone, Copy, PartialEq, Eq, Structural)]
pub enum RegistryOwnership {
    Owned,
    Borrowed,
}

/// Where template images are read from, where the index is written, which vision
/// model embeds them, and the template side in pixels.
#[derive(Debug, Clone)]
pub struct BuildEmbeddingsOptions {
    pub png_dir: String,
    pub out: String,
    pub vision_model: String,
    pub template_size: u32,
}

/// The extraction result: screenshot size and layout tree.
#[derive(Debug)]
pub struct ExtractResult {
    pub width: i32,
    pub height: i32,
    pub root: UiElement,
}

/// A copy of a kind that is equal to it.
pub fn clone_kind(kind: &UiElementKind) -> (r: UiElementKind)
    ensures
        r == *kind,
{
    match kind {
        UiElementKind::Root => UiElementKind::Root,
        UiElementKind::Container => UiElementKind::Container,
        UiElementKind::Text { content, confidence } => UiElementKind::Text {
            content: content.clone(),
            confidence: *confidence,
        },
        UiElementKind::Icon { name, confidence } => UiElementKind::Icon {
            name: name.clone(),
            confidence: *confidence,
        },
    }
}

impl UiElement {
    pub fn container(bounds: Bounds, children: Vec<UiElement>) -> (e: UiElement)
        ensures
            e.bounds == bounds,
            e.kind == UiElementKind::Container,
            e.children@ == children@,
    {
        UiElement { bounds, kind: UiElementKind::Container, children }
    }

    pub fn text(bounds: Bounds, content: String, confidence: Option<u32>) -> (e: UiElement)
        ensures
            e.bounds == bounds,
            e.kind == (UiElementKind::Text { content, confidence }),
            e.children@.len() == 0,
    {
        UiElement { bounds, kind: UiElementKind::Text { content, confidence }, children: Vec::new() }
    }

    pub fn icon(bounds: Bounds, name: String, confidence: Option<u32>) -> (e: UiElement)
        ensures
            e.bounds == bounds,
            e.kind == (UiElementKind::Icon { name, confidence }),
            e.children@.len() == 0,
    {
        UiElement { bounds, kind: UiElementKind::Icon { name, confidence }, children: Vec::new() }
    }
}


/// Containment of boxes is reflexive and transitive.
pub proof fn lemma_contains_preorder(a: Bounds, b: Bounds, c: Bounds)
    ensures
        a.spec_contains(a),
        a.spec_contains(b) && b.spec_contains(c) ==> a.spec_contains(c),
{
}

/// The overlap of two boxes does not depend on their order, and a box of
/// non-negative size overlaps another by at most its own area; a box contained in
/// another overlaps it by exactly its area.
pub proof fn lemma_intersection_laws(a: Bounds, b: Bounds)
    ensures
        a.spec_intersection_area(b) == b.spec_intersection_area(a),
        a.spec_intersection_area(b) >= 0,
        a.width >= 0 && a.height >= 0 ==> a.spec_intersection_area(b) <= a.spec_area(),
        a.width >= 0 && a.height >= 0 && b.spec_contains(a) ==> a.spec_intersection_area(b)
            == a.spec_area(),
{
    let w = max_int(a.overlap_w(b), 0);
    let h = max_int(a.overlap_h(b), 0);
    assert(w * h >= 0) by (nonlinear_arith)
        requires w >= 0, h >= 0;
    if a.width >= 0 && a.height >= 0 {
        assert(w <= a.width && h <= a.height);
        assert(w * h <= (a.width as int) * (a.height as int)) by (nonlinear_arith)
            requires 0 <= w <= a.width, 0 <= h <= a.height;
    }
}

/// The IoU limit does not depend on the order of the two boxes.
pub proof fn lemma_iou_symmetric(a: Bounds, b: Bounds, limit: Ratio)
    ensures
        a.spec_iou_at_most(b, limit) == b.spec_iou_at_most(a, limit),
{
    lemma_intersection_laws(a, b);
}

} // verus!
