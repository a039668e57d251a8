//! What an annotated screenshot shows of a layout tree: for every node below the
//! root, a two-pixel outline in the colour of its kind, and for text and icon
//! nodes a label above the box. The pixels themselves are drawn by the caller.
use vstd::prelude::*;
use crate::text::{spec_truncate_label, truncate_label};
use crate::types::{max_int, Bounds, UiElement, UiElementKind};

verus! {

/// An RGB colour.
#[derive(Debug, Clone, Copy, PartialEq, Eq, Structural)]
pub struct Rgb8 {
    pub r: u8,
    pub g: u8,
    pub b: u8,
}

/// A one-pixel rectangle outline with its top-left corner and positive size.
#[derive(Debug, Clone, Copy, PartialEq, Eq, Structural)]
pub struct FrameRect {
    pub left: i32,
    pub top: i32,
    pub width: u32,
    pub height: u32,
}

/// A label drawn with its top-left corner at `(x, y)`.
#[derive(Debug, Clone)]
pub struct LabelMark {
    pub text: String,
    pub x: i32,
    pub y: i32,
}

/// The marks of one node: its outline as two nested frames, their colour, and
/// its label.
#[derive(Debug, Clone)]
pub struct AnnotationMark {
    pub outer: FrameRect,
    pub inner: FrameRect,
    pub color: Rgb8,
    pub label: Option<LabelMark>,
}

/// Longest label, in characters, before it is cut with an ellipsis.
pub const LABEL_MAX_CHARS: usize = 24;

/// Height reserved for a label above its box.
pub const LABEL_LIFT: i32 = 16;

pub open spec fn spec_kind_color(k: UiElementKind) -> Rgb8 {
    match k {
        UiElementKind::Container => Rgb8 { r: 0, g: 120, b: 255 },
        UiElementKind::Text { .. } => Rgb8 { r: 0, g: 180, b: 70 },
        UiElementKind::Icon { .. } => Rgb8 { r: 255, g: 140, b: 0 },
        UiElementKind::Root => Rgb8 { r: 0, g: 0, b: 0 },
    }
}

/// The outline of `b` moved in by `inset` pixels on every side, at least one
/// pixel wide and high.
pub open spec fn spec_frame(b: Bounds, inset: int) -> FrameRect {
    FrameRect {
        left: (b.x + inset) as i32,
        top: (b.y + inset) as i32,
        width: max_int(b.width - 2 * inset, 1) as u32,
        height: max_int(b.height - 2 * inset, 1) as u32,
    }
}

/// The text a node is labelled with: its content or icon name, trimmed and cut.
pub open spec fn spec_label_text(k: UiElementKind) -> Option<Seq<char>> {
    match k {
        UiElementKind::Text { content, .. } => Some(
            spec_truncate_label(content@, LABEL_MAX_CHARS as int),
        ),
        UiElementKind::Icon { name, .. } => Some(spec_truncate_label(name@, LABEL_MAX_CHARS as int)),
        _ => None,
    }
}

/// A mark as plain values.
pub open spec fn mark_view(m: AnnotationMark) -> (FrameRect, FrameRect, Rgb8, Option<(Seq<char>, i32, i32)>) {
    (
        m.outer,
        m.inner,
        m.color,
        match m.label {
            Some(l) => Some((l.text@, l.x, l.y)),
            None => None,
        },
    )
}

pub open spec fn mark_views(ms: Seq<AnnotationMark>) -> Seq<(FrameRect, FrameRect, Rgb8, Option<(Seq<char>, i32, i32)>)> {
    Seq::new(ms.len(), |i: int| mark_view(ms[i]))
}

/// The marks of one drawn node.
pub open spec fn spec_node_mark(e: UiElement) -> (FrameRect, FrameRect, Rgb8, Option<(Seq<char>, i32, i32)>) {
    (
        spec_frame(e.bounds, 0),
        spec_frame(e.bounds, 1),
        spec_kind_color(e.kind),
        match spec_label_text(e.kind) {
            Some(t) => Some(
                (
                    t,
                    max_int(e.bounds.x as int, 0) as i32,
                    max_int(e.bounds.y - LABEL_LIFT, 0) as i32,
                ),
            ),
            None => None,
        },
    )
}

/// The marks of a tree in pre-order. The top node is not drawn; a node of the root
/// kind below it ends its branch: neither it nor its subtree is drawn.
pub open spec fn tree_marks(e: UiElement, is_top: bool) -> Seq<(FrameRect, FrameRect, Rgb8, Option<(Seq<char>, i32, i32)>)>
    decreases e,
{
    if !is_top && e.kind is Root {
        Seq::empty()
    } else {
        let own = if is_top {
            Seq::empty()
        } else {
            seq![spec_node_mark(e)]
        };
        own + forest_marks(e.children@)
    }
}

pub open spec fn forest_marks(s: Seq<UiElement>) -> Seq<(FrameRect, FrameRect, Rgb8, Option<(Seq<char>, i32, i32)>)>
    decreases s,
{
    if s.len() == 0 {
        Seq::empty()
    } else {
        forest_marks(s.drop_last()) + tree_marks(s.last(), false)
    }
}

/// A drawn node has a non-zero size and its frame and label corners are `i32`s.
pub open spec fn drawable(e: UiElement) -> bool {
    let b = e.bounds;
    &&& b.width != 0 && b.height != 0
    &&& b.x < i32::MAX && b.y < i32::MAX
    &&& b.width - 2 >= i32::MIN && b.height - 2 >= i32::MIN
    &&& spec_label_text(e.kind) is Some ==> b.y - LABEL_LIFT >= i32::MIN
}

/// Every node that is drawn is drawable.
pub open spec fn marks_ok(e: UiElement, is_top: bool) -> bool
    decreases e,
{
    if !is_top && e.kind is Root {
        true
    } else {
        (is_top || drawable(e)) && forest_marks_ok(e.children@)
    }
}

pub open spec fn forest_marks_ok(s: Seq<UiElement>) -> bool
    decreases s,
{
    s.len() == 0 || (forest_marks_ok(s.drop_last()) && marks_ok(s.last(), false))
}

proof fn lemma_forest_marks_prefix(s: Seq<UiElement>, i: int)
    requires
        0 <= i < s.len(),
    ensures
        forest_marks_ok(s) ==> marks_ok(s[i], false),
        forest_marks(s.take(i + 1)) == forest_marks(s.take(i)) + tree_marks(s[i], false),
    decreases s.len(),
{
    let t = s.take(i + 1);
    assert(t.drop_last() == s.take(i));
    assert(t.last() == s[i]);
    if i + 1 < s.len() {
        assert(s.drop_last()[i] == s[i]);
        lemma_forest_marks_prefix(s.drop_last(), i);
    } else {
        assert(s.last() == s[i]);
    }
}

pub fn kind_color(k: &UiElementKind) -> (c: Rgb8)
    ensures
        c == spec_kind_color(*k),
{
    match k {
        UiElementKind::Container => Rgb8 { r: 0, g: 120, b: 255 },
        UiElementKind::Text { .. } => Rgb8 { r: 0, g: 180, b: 70 },
        UiElementKind::Icon { .. } => Rgb8 { r: 255, g: 140, b: 0 },
        UiElementKind::Root => Rgb8 { r: 0, g: 0, b: 0 },
    }
}

fn frame(b: &Bounds, inset: i32) -> (f: FrameRect)
    requires
        0 <= inset <= 1,
        b.x + inset <= i32::MAX,
        b.y + inset <= i32::MAX,
        b.width - 2 * inset >= i32::MIN,
        b.height - 2 * inset >= i32::MIN,
    ensures
        f == spec_frame(*b, inset as int),
{
    let w = b.width - 2 * inset;
    let h = b.height - 2 * inset;
    FrameRect {
        left: b.x + inset,
        top: b.y + inset,
        width: if w >= 1 { w as u32 } else { 1 },
        height: if h >= 1 { h as u32 } else { 1 },
    }
}

/// The marks of one node below the top (see `spec_node_mark`).
pub fn node_mark(e: &UiElement) -> (m: AnnotationMark)
    requires
        drawable(*e),
    ensures
        mark_view(m) == spec_node_mark(*e),
{
    let b = &e.bounds;
    let text = match &e.kind {
        UiElementKind::Text { content, .. } => Some(content.as_str()),
        UiElementKind::Icon { name, .. } => Some(name.as_str()),
        _ => None,
    };
    let label = match text {
        Some(t) => {
            let x = if b.x >= 0 { b.x } else { 0 };
            let lifted = b.y - LABEL_LIFT;
            let y = if lifted >= 0 { lifted } else { 0 };
            Some(LabelMark { text: truncate_label(t, LABEL_MAX_CHARS), x, y })
        },
        None => None,
    };
    AnnotationMark { outer: frame(b, 0), inner: frame(b, 1), color: kind_color(&e.kind), label }
}

fn push_marks(out: &mut Vec<AnnotationMark>, e: &UiElement, is_top: bool)
    requires
        marks_ok(*e, is_top),
    ensures
        mark_views(final(out)@) == mark_views(old(out)@) + tree_marks(*e, is_top),
    decreases e,
{
    if !is_top {
        if let UiElementKind::Root = e.kind {
            assert(mark_views(out@) =~= mark_views(old(out)@) + tree_marks(*e, is_top));
            return;
        }
        let m = node_mark(e);
        out.push(m);
    }
    let ghost mid = mark_views(out@);
    assert(mid =~= mark_views(old(out)@) + (if is_top {
        Seq::empty()
    } else {
        seq![spec_node_mark(*e)]
    }));
    let n = e.children.len();
    let mut i: usize = 0;
    while i < n
        invariant
            n == e.children@.len(),
            i <= n,
            forest_marks_ok(e.children@),
            mark_views(out@) == mid + forest_marks(e.children@.take(i as int)),
        decreases n - i,
    {
        proof {
            lemma_forest_marks_prefix(e.children@, i as int);
        }
        push_marks(out, &e.children[i], false);
        assert(mark_views(out@) =~= mid + forest_marks(e.children@.take(i + 1)));
        i = i + 1;
    }
    assert(e.children@.take(n as int) == e.children@);
}

/// The marks of the annotated screenshot of a tree whose top node is `root`: each
/// node below it in pre-order (see `tree_marks`).
pub fn annotation_marks(root: &UiElement) -> (r: Vec<AnnotationMark>)
    requires
        marks_ok(*root, true),
    ensures
        mark_views(r@) == tree_marks(*root, true),
{
    let mut r: Vec<AnnotationMark> = Vec::new();
    assert(mark_views(r@) =~= Seq::empty());
    push_marks(&mut r, root, true);
    assert(mark_views(r@) =~= tree_marks(*root, true));
    r
}

} // verus!
