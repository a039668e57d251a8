//! Layout tree construction: contour filtering, hierarchy linking and pruning of
//! redundant nested containers.
use vstd::prelude::*;

use crate::types::{Bounds, Ratio, UiElement, UiElementKind, clone_kind};

verus! {

/// Thresholds of the layout rules.
#[derive(Debug, Clone, Copy)]
pub struct LayoutConfig {
    /// Minimum outer-contour AABB area in pixels.
    pub min_area: i64,
    /// Drop hole contours whose AABB area is below this (e.g. letter counters).
    pub min_hole_area: i64,
    /// Drop hole contours whose shorter side is below this (px).
    pub min_hole_side: i32,
    /// A contour is linked under its kept ancestor only when their IoU is at most this.
    pub max_parent_iou: Ratio,
    /// Morphology kernel size for closing gaps (0 = skip).
    pub close_kernel: u32,
    /// Drop a child container when it sits inside the parent with at most this inset (px).
    pub max_inset_margin: i32,
    /// Uniform padding inset up to this margin also triggers pruning.
    pub max_padding_margin: i32,
    /// Drop a child container whose area / parent area reaches this ratio (near-duplicate).
    pub max_child_area_ratio: Ratio,
    /// Drop a uniformly padded inner container at or below this area ratio.
    pub max_padded_child_area_ratio: Ratio,
}

impl Default for LayoutConfig {
    /// The default thresholds: area 100, hole area 2000, hole side 40, parent IoU
    /// 92/100, close kernel 3, inset margin 10, padding margin 20, child area ratio
    /// 82/100, padded child area ratio 65/100.
    fn default() -> (c: LayoutConfig)
        ensures
            c == LayoutConfig::default_spec(),
            c.wf(),
            c.min_area == 100,
            c.min_hole_area == 2000,
            c.min_hole_side == 40,
            c.max_parent_iou == (Ratio { num: 92, den: 100 }),
            c.close_kernel == 3,
            c.max_inset_margin == 10,
            c.max_padding_margin == 20,
            c.max_child_area_ratio == (Ratio { num: 82, den: 100 }),
            c.max_padded_child_area_ratio == (Ratio { num: 65, den: 100 }),
    {
        LayoutConfig {
            min_area: 100,
            min_hole_area: 2000,
            min_hole_side: 40,
            max_parent_iou: Ratio { num: 92, den: 100 },
            close_kernel: 3,
            max_inset_margin: 10,
            max_padding_margin: 20,
            max_child_area_ratio: Ratio { num: 82, den: 100 },
            max_padded_child_area_ratio: Ratio { num: 65, den: 100 },
        }
    }
}

impl LayoutConfig {
    /// The default thresholds (see `default`).
    pub open spec fn default_spec() -> LayoutConfig {
        LayoutConfig {
            min_area: 100,
            min_hole_area: 2000,
            min_hole_side: 40,
            max_parent_iou: Ratio { num: 92, den: 100 },
            close_kernel: 3,
            max_inset_margin: 10,
            max_padding_margin: 20,
            max_child_area_ratio: Ratio { num: 82, den: 100 },
            max_padded_child_area_ratio: Ratio { num: 65, den: 100 },
        }
    }

    pub open spec fn wf(self) -> bool {
        &&& self.max_parent_iou.wf()
        &&& self.max_child_area_ratio.wf()
        &&& self.max_padded_child_area_ratio.wf()
    }
}

/// A traced border of a foreground region: its points, whether it borders a hole,
/// and the index of its parent border in the same list.
#[derive(Debug, Clone)]
pub struct Contour {
    pub points: Vec<(u32, u32)>,
    pub is_hole: bool,
    pub parent: Option<usize>,
}

/// Counts of kept vs rejected contours by reason.
#[derive(Debug, Clone, Copy, PartialEq, Eq, Structural)]
pub struct ContourFilterStats {
    pub total: usize,
    pub kept: usize,
    pub dropped_hole: usize,
    pub dropped_area: usize,
    pub dropped_thin: usize,
}

/// Outcome of the contour filter.
#[derive(Debug, Clone, Copy, PartialEq, Eq, Structural)]
pub enum ContourKeep {
    Yes,
    HoleTooSmall,
    AreaTooSmall,
    TooThin,
}

/// Largest coordinate a contour point may have.
pub const MAX_COORD: u32 = 0x7fff_fffe;

/// At least one point, every coordinate at most `MAX_COORD`.
pub open spec fn points_wf(points: Seq<(u32, u32)>) -> bool {
    &&& points.len() > 0
    &&& forall|i: int| 0 <= i < points.len() ==> points[i].0 <= MAX_COORD && points[i].1 <= MAX_COORD
}

pub open spec fn seq_min_x(points: Seq<(u32, u32)>) -> int
    decreases points.len(),
{
    if points.len() == 0 {
        i32::MAX as int
    } else {
        let rest = seq_min_x(points.drop_last());
        let v = points.last().0 as int;
        if v < rest { v } else { rest }
    }
}

pub open spec fn seq_min_y(points: Seq<(u32, u32)>) -> int
    decreases points.len(),
{
    if points.len() == 0 {
        i32::MAX as int
    } else {
        let rest = seq_min_y(points.drop_last());
        let v = points.last().1 as int;
        if v < rest { v } else { rest }
    }
}

pub open spec fn seq_max_x(points: Seq<(u32, u32)>) -> int
    decreases points.len(),
{
    if points.len() == 0 {
        i32::MIN as int
    } else {
        let rest = seq_max_x(points.drop_last());
        let v = points.last().0 as int;
        if v > rest { v } else { rest }
    }
}

pub open spec fn seq_max_y(points: Seq<(u32, u32)>) -> int
    decreases points.len(),
{
    if points.len() == 0 {
        i32::MIN as int
    } else {
        let rest = seq_max_y(points.drop_last());
        let v = points.last().1 as int;
        if v > rest { v } else { rest }
    }
}

/// Axis-aligned bounding box of a point list (at least 1×1).
pub open spec fn spec_points_bounds(points: Seq<(u32, u32)>) -> Bounds {
    let w = seq_max_x(points) - seq_min_x(points) + 1;
    let h = seq_max_y(points) - seq_min_y(points) + 1;
    Bounds {
        x: seq_min_x(points) as i32,
        y: seq_min_y(points) as i32,
        width: (if w >= 1 { w } else { 1 }) as i32,
        height: (if h >= 1 { h } else { 1 }) as i32,
    }
}

proof fn lemma_extremes_in_range(points: Seq<(u32, u32)>)
    requires
        points_wf(points),
    ensures
        0 <= seq_min_x(points) <= seq_max_x(points) <= MAX_COORD,
        0 <= seq_min_y(points) <= seq_max_y(points) <= MAX_COORD,
    decreases points.len(),
{
    let last = points[points.len() - 1];
    assert(last.0 <= MAX_COORD && last.1 <= MAX_COORD);
    assert(points.last() == last);
    if points.len() > 1 {
        let rest = points.drop_last();
        assert forall|i: int| 0 <= i < rest.len() implies rest[i].0 <= MAX_COORD && rest[i].1
            <= MAX_COORD by {
            assert(rest[i] == points[i]);
        }
        lemma_extremes_in_range(rest);
    } else {
        let rest = points.drop_last();
        assert(rest.len() == 0);
        assert(seq_min_x(rest) == i32::MAX);
        assert(seq_min_y(rest) == i32::MAX);
        assert(seq_max_x(rest) == i32::MIN);
        assert(seq_max_y(rest) == i32::MIN);
    }
}

/// A contour box has its edges representable and positive extents.
pub proof fn lemma_points_bounds_wf(points: Seq<(u32, u32)>)
    requires
        points_wf(points),
    ensures
        spec_points_bounds(points).wf(),
        spec_points_bounds(points).width >= 1,
        spec_points_bounds(points).height >= 1,
        0 <= spec_points_bounds(points).x,
        0 <= spec_points_bounds(points).y,
        spec_points_bounds(points).spec_right() <= MAX_COORD + 1,
        spec_points_bounds(points).spec_bottom() <= MAX_COORD + 1,
{
    lemma_extremes_in_range(points);
}

/// Bounding box of a contour's points.
pub fn contour_bounds(contour: &Contour) -> (b: Bounds)
    requires
        points_wf(contour.points@),
    ensures
        b == spec_points_bounds(contour.points@),
{
    let mut min_x: i32 = i32::MAX;
    let mut min_y: i32 = i32::MAX;
    let mut max_x: i32 = i32::MIN;
    let mut max_y: i32 = i32::MIN;
    let n = contour.points.len();
    let mut i: usize = 0;
    while i < n
        invariant
            n == contour.points@.len(),
            i <= n,
            points_wf(contour.points@),
            min_x == seq_min_x(contour.points@.take(i as int)),
            min_y == seq_min_y(contour.points@.take(i as int)),
            max_x == seq_max_x(contour.points@.take(i as int)),
            max_y == seq_max_y(contour.points@.take(i as int)),
        decreases n - i,
    {
        let (px, py) = contour.points[i];
        let x = px as i32;
        let y = py as i32;
        assert(contour.points@.take(i + 1).drop_last() == contour.points@.take(i as int));
        if x < min_x {
            min_x = x;
        }
        if y < min_y {
            min_y = y;
        }
        if x > max_x {
            max_x = x;
        }
        if y > max_y {
            max_y = y;
        }
        i = i + 1;
    }
    assert(contour.points@.take(n as int) == contour.points@);
    proof {
        lemma_extremes_in_range(contour.points@);
    }
    let w = max_x - min_x + 1;
    let h = max_y - min_y + 1;
    Bounds::new(min_x, min_y, if w >= 1 { w } else { 1 }, if h >= 1 { h } else { 1 })
}

pub open spec fn spec_classify(bounds: Bounds, is_hole: bool, config: LayoutConfig) -> ContourKeep {
    if bounds.width < 2 || bounds.height < 2 {
        ContourKeep::TooThin
    } else if is_hole {
        if bounds.spec_area() >= config.min_hole_area && bounds.width >= config.min_hole_side
            && bounds.height >= config.min_hole_side {
            ContourKeep::Yes
        } else {
            ContourKeep::HoleTooSmall
        }
    } else if bounds.spec_area() >= config.min_area {
        ContourKeep::Yes
    } else {
        ContourKeep::AreaTooSmall
    }
}

/// Filter a contour by the size of its box: thin boxes, small holes and small
/// outer regions are rejected.
pub fn classify_contour(bounds: &Bounds, is_hole: bool, config: &LayoutConfig) -> (k: ContourKeep)
    ensures
        k == spec_classify(*bounds, is_hole, *config),
{
    if bounds.width < 2 || bounds.height < 2 {
        return ContourKeep::TooThin;
    }
    if is_hole {
        if bounds.area() >= config.min_hole_area && bounds.width >= config.min_hole_side
            && bounds.height >= config.min_hole_side {
            return ContourKeep::Yes;
        }
        return ContourKeep::HoleTooSmall;
    }
    if bounds.area() >= config.min_area {
        ContourKeep::Yes
    } else {
        ContourKeep::AreaTooSmall
    }
}

/// Every contour has at least one point with coordinates at most `MAX_COORD`, and
/// every parent index names an earlier contour.
pub open spec fn contours_wf(cs: Seq<Contour>) -> bool {
    forall|i: int|
        0 <= i < cs.len() ==> points_wf(#[trigger] cs[i].points@) && (cs[i].parent matches Some(
            p,
        ) ==> p < i)
}

pub open spec fn contour_box(cs: Seq<Contour>, i: int) -> Bounds {
    spec_points_bounds(cs[i].points@)
}

pub open spec fn contour_class(cs: Seq<Contour>, config: LayoutConfig, i: int) -> ContourKeep {
    spec_classify(contour_box(cs, i), cs[i].is_hole, config)
}

pub open spec fn is_kept(cs: Seq<Contour>, config: LayoutConfig, i: int) -> bool {
    contour_class(cs, config, i) == ContourKeep::Yes
}

/// Walk the parent chain from `j`, skipping contours removed by filtering.
pub open spec fn kept_ancestor_at(cs: Seq<Contour>, config: LayoutConfig, j: int) -> Option<int>
    decreases j,
{
    if j < 0 || j >= cs.len() {
        None
    } else if is_kept(cs, config, j) {
        Some(j)
    } else {
        match cs[j].parent {
            None => None,
            Some(p) => if p < j {
                kept_ancestor_at(cs, config, p as int)
            } else {
                None
            },
        }
    }
}

pub open spec fn kept_ancestor(cs: Seq<Contour>, config: LayoutConfig, start: Option<usize>) -> Option<int> {
    match start {
        None => None,
        Some(p) => kept_ancestor_at(cs, config, p as int),
    }
}

/// The kept contour that contour `i` is linked under: its nearest kept ancestor,
/// provided their IoU does not exceed the limit.
pub open spec fn linked_parent(cs: Seq<Contour>, config: LayoutConfig, i: int) -> Option<int> {
    if !is_kept(cs, config, i) {
        None
    } else {
        match kept_ancestor(cs, config, cs[i].parent) {
            None => None,
            Some(a) => if contour_box(cs, i).spec_iou_at_most(
                contour_box(cs, a),
                config.max_parent_iou,
            ) {
                Some(a)
            } else {
                None
            },
        }
    }
}

/// The contour `k` steps up the parent chain from contour `j` (`j` itself for
/// `k == 0`); `None` when the chain ends before.
pub open spec fn chain_at(cs: Seq<Contour>, j: int, k: int) -> Option<int>
    decreases k,
{
    if k <= 0 {
        Some(j)
    } else if 0 <= j < cs.len() {
        match cs[j].parent {
            Some(p) => chain_at(cs, p as int, k - 1),
            None => None,
        }
    } else {
        None
    }
}

proof fn lemma_walk_to_kept(cs: Seq<Contour>, config: LayoutConfig, j: int, k: int, a: int)
    requires
        contours_wf(cs),
        0 <= j < cs.len(),
        0 <= k,
        chain_at(cs, j, k) == Some(a),
        is_kept(cs, config, a),
        forall|m: int| 0 <= m < k ==> (#[trigger] chain_at(cs, j, m) matches Some(b) && !is_kept(cs, config, b)),
    ensures
        kept_ancestor_at(cs, config, j) == Some(a),
    decreases k,
{
    if k > 0 {
        assert(chain_at(cs, j, 0) == Some(j));
        let p = cs[j].parent->0;
        assert(cs[j].parent is Some);
        assert(p < j);
        assert forall|m: int| 0 <= m < k - 1 implies (#[trigger] chain_at(cs, p as int, m) matches Some(b)
            && !is_kept(cs, config, b)) by {
            assert(chain_at(cs, j, m + 1) == chain_at(cs, p as int, m));
        }
        lemma_walk_to_kept(cs, config, p as int, k - 1, a);
    }
}

/// A kept contour is linked under the nearest kept contour up its parent chain:
/// when the first `k - 1` contours above it were dropped by the filter and the
/// `k`-th is kept, it is linked under that one, provided their IoU does not exceed
/// the limit.
pub proof fn lemma_link_skips_dropped_ancestors(cs: Seq<Contour>, config: LayoutConfig, i: int, k: int, a: int)
    requires
        contours_wf(cs),
        0 <= i < cs.len(),
        is_kept(cs, config, i),
        1 <= k,
        chain_at(cs, i, k) == Some(a),
        is_kept(cs, config, a),
        forall|m: int| 1 <= m < k ==> (#[trigger] chain_at(cs, i, m) matches Some(b) && !is_kept(cs, config, b)),
        contour_box(cs, i).spec_iou_at_most(contour_box(cs, a), config.max_parent_iou),
    ensures
        linked_parent(cs, config, i) == Some(a),
{
    assert(cs[i].parent is Some);
    let p = cs[i].parent->0;
    assert(p < i);
    assert forall|m: int| 0 <= m < k - 1 implies (#[trigger] chain_at(cs, p as int, m) matches Some(b)
        && !is_kept(cs, config, b)) by {
        assert(chain_at(cs, i, m + 1) == chain_at(cs, p as int, m));
    }
    assert(chain_at(cs, i, k) == chain_at(cs, p as int, k - 1));
    lemma_walk_to_kept(cs, config, p as int, k - 1, a);
}

/// A kept contour none of whose ancestors up the whole parent chain is kept is
/// linked under nothing: it hangs from the root.
pub proof fn lemma_unlinked_without_kept_ancestor(cs: Seq<Contour>, config: LayoutConfig, i: int, k: int)
    requires
        contours_wf(cs),
        0 <= i < cs.len(),
        1 <= k,
        chain_at(cs, i, k) is None,
        forall|m: int| 1 <= m < k ==> (#[trigger] chain_at(cs, i, m) matches Some(b) && !is_kept(cs, config, b)),
    ensures
        linked_parent(cs, config, i) is None,
{
    if is_kept(cs, config, i) && cs[i].parent is Some {
        let p = cs[i].parent->0;
        assert(p < i);
        assert forall|m: int| 0 <= m < k - 1 implies (#[trigger] chain_at(cs, p as int, m) matches Some(b)
            && !is_kept(cs, config, b)) by {
            assert(chain_at(cs, i, m + 1) == chain_at(cs, p as int, m));
        }
        assert(chain_at(cs, i, k) == chain_at(cs, p as int, k - 1));
        lemma_walk_to_none(cs, config, p as int, k - 1);
    }
}

proof fn lemma_walk_to_none(cs: Seq<Contour>, config: LayoutConfig, j: int, k: int)
    requires
        contours_wf(cs),
        0 <= j < cs.len(),
        0 <= k,
        chain_at(cs, j, k) is None,
        forall|m: int| 0 <= m < k ==> (#[trigger] chain_at(cs, j, m) matches Some(b) && !is_kept(cs, config, b)),
    ensures
        kept_ancestor_at(cs, config, j) is None,
    decreases k,
{
    assert(k > 0);
    assert(chain_at(cs, j, 0) == Some(j));
    if cs[j].parent is Some {
        let p = cs[j].parent->0;
        assert(p < j);
        assert forall|m: int| 0 <= m < k - 1 implies (#[trigger] chain_at(cs, p as int, m) matches Some(b)
            && !is_kept(cs, config, b)) by {
            assert(chain_at(cs, j, m + 1) == chain_at(cs, p as int, m));
        }
        lemma_walk_to_none(cs, config, p as int, k - 1);
    }
}

/// Kept contours among the first `n` whose link is `parent`, in index order.
pub open spec fn nodes_under(cs: Seq<Contour>, config: LayoutConfig, parent: Option<int>, n: int) -> Seq<usize>
    decreases n,
{
    if n <= 0 {
        Seq::empty()
    } else {
        let rest = nodes_under(cs, config, parent, n - 1);
        if is_kept(cs, config, n - 1) && linked_parent(cs, config, n - 1) == parent {
            rest.push((n - 1) as usize)
        } else {
            rest
        }
    }
}

/// `e` is the container tree built for kept contour `p`: the contour's box, with the
/// trees of the contours linked under it as children, in contour order.
pub open spec fn is_contour_subtree(cs: Seq<Contour>, config: LayoutConfig, p: int, e: UiElement) -> bool
    decreases e,
{
    &&& e.bounds == contour_box(cs, p)
    &&& e.kind == UiElementKind::Container
    &&& subtrees_match(cs, config, nodes_under(cs, config, Some(p), cs.len() as int), e.children@)
}

/// `es[k]` is the container tree of contour `idxs[k]`, for every `k`.
pub open spec fn subtrees_match(cs: Seq<Contour>, config: LayoutConfig, idxs: Seq<usize>, es: Seq<UiElement>) -> bool
    decreases es,
{
    if es.len() == 0 {
        idxs.len() == 0
    } else {
        &&& idxs.len() == es.len()
        &&& subtrees_match(cs, config, idxs.drop_last(), es.drop_last())
        &&& is_contour_subtree(cs, config, idxs.last() as int, es.last())
    }
}

/// `e` is the layout tree (before pruning) built from the contours: a root with the
/// screen bounds whose children are the trees of the unlinked kept contours.
pub open spec fn is_layout_tree(cs: Seq<Contour>, config: LayoutConfig, screen: Bounds, e: UiElement) -> bool {
    &&& e.bounds == screen
    &&& e.kind == UiElementKind::Root
    &&& subtrees_match(cs, config, nodes_under(cs, config, None, cs.len() as int), e.children@)
}

/// Appending one matching pair keeps a forest match.
proof fn lemma_subtrees_push(
    cs: Seq<Contour>,
    config: LayoutConfig,
    idxs: Seq<usize>,
    es: Seq<UiElement>,
    i: usize,
    e: UiElement,
)
    requires
        subtrees_match(cs, config, idxs, es),
        is_contour_subtree(cs, config, i as int, e),
    ensures
        subtrees_match(cs, config, idxs.push(i), es.push(e)),
{
    assert(idxs.push(i).drop_last() == idxs);
    assert(es.push(e).drop_last() == es);
    assert(subtrees_match(cs, config, idxs.push(i), es.push(e)) == (idxs.push(i).len() == es.push(e).len()
        && subtrees_match(cs, config, idxs, es) && is_contour_subtree(cs, config, i as int, e)));
    if es.len() == 0 {
        assert(idxs.len() == 0);
    } else {
        assert(idxs.len() == es.len());
    }
}

proof fn lemma_kept_ancestor_at(cs: Seq<Contour>, config: LayoutConfig, j: int)
    requires
        contours_wf(cs),
    ensures
        kept_ancestor_at(cs, config, j) matches Some(a) ==> 0 <= a <= j && a < cs.len()
            && is_kept(cs, config, a),
    decreases j,
{
    if 0 <= j < cs.len() && !is_kept(cs, config, j) {
        if let Some(p) = cs[j].parent {
            if p < j {
                lemma_kept_ancestor_at(cs, config, p as int);
            }
        }
    }
}

/// A contour is linked only under an earlier kept contour.
pub proof fn lemma_linked_parent_earlier(cs: Seq<Contour>, config: LayoutConfig, i: int)
    requires
        contours_wf(cs),
        0 <= i < cs.len(),
    ensures
        linked_parent(cs, config, i) matches Some(a) ==> 0 <= a < i && is_kept(cs, config, a),
{
    assert(points_wf(cs[i].points@));
    if let Some(p) = cs[i].parent {
        assert(p < i);
        lemma_kept_ancestor_at(cs, config, p as int);
    }
}

proof fn lemma_nodes_under(cs: Seq<Contour>, config: LayoutConfig, parent: Option<int>, n: int)
    requires
        contours_wf(cs),
        n <= cs.len(),
        cs.len() <= usize::MAX,
    ensures
        forall|k: int|
            0 <= k < nodes_under(cs, config, parent, n).len() ==> {
                let x = #[trigger] nodes_under(cs, config, parent, n)[k];
                &&& x < n
                &&& is_kept(cs, config, x as int)
                &&& linked_parent(cs, config, x as int) == parent
                &&& (parent matches Some(q) ==> q < x)
            },
    decreases n,
{
    if n > 0 {
        lemma_nodes_under(cs, config, parent, n - 1);
        lemma_linked_parent_earlier(cs, config, n - 1);
        let rest = nodes_under(cs, config, parent, n - 1);
        let all = nodes_under(cs, config, parent, n);
        assert forall|k: int| 0 <= k < all.len() implies {
            let x = #[trigger] all[k];
            &&& x < n
            &&& is_kept(cs, config, x as int)
            &&& linked_parent(cs, config, x as int) == parent
            &&& (parent matches Some(q) ==> q < x)
        } by {
            if is_kept(cs, config, n - 1) && linked_parent(cs, config, n - 1) == parent {
                assert(all == rest.push((n - 1) as usize));
                if k < rest.len() {
                    assert(all[k] == rest[k]);
                } else {
                    assert(all[k] == (n - 1) as usize);
                }
            } else {
                assert(all == rest);
            }
        }
    }
}

/// Walk the contour parent chain, skipping contours removed by filtering.
fn find_kept_ancestor(
    contours: &Vec<Contour>,
    start: Option<usize>,
    kept: &Vec<bool>,
    Ghost(config): Ghost<LayoutConfig>,
) -> (r: Option<usize>)
    requires
        contours_wf(contours@),
        kept@.len() == contours@.len(),
        forall|i: int| 0 <= i < kept@.len() ==> kept@[i] == is_kept(contours@, config, i),
        start matches Some(p) ==> p < contours@.len(),
    ensures
        match r {
            None => kept_ancestor(contours@, config, start) is None,
            Some(a) => kept_ancestor(contours@, config, start) == Some(a as int),
        },
{
    let mut cur = start;
    loop
        invariant
            contours_wf(contours@),
            kept@.len() == contours@.len(),
            forall|i: int| 0 <= i < kept@.len() ==> kept@[i] == is_kept(contours@, config, i),
            cur matches Some(p) ==> p < contours@.len(),
            kept_ancestor(contours@, config, cur) == kept_ancestor(contours@, config, start),
        decreases (match cur {
            Some(j) => j as int + 1,
            None => 0,
        }),
    {
        match cur {
            None => {
                return None;
            },
            Some(j) => {
                if kept[j] {
                    return Some(j);
                }
                let next = contours[j].parent;
                assert(points_wf(contours@[j as int].points@));
                cur = next;
            },
        }
    }
}

/// The per-contour tables that the tree builder reads.
pub open spec fn tables_match(
    cs: Seq<Contour>,
    config: LayoutConfig,
    boxes: Seq<Bounds>,
    children: Seq<Vec<usize>>,
) -> bool {
    &&& boxes.len() == cs.len()
    &&& children.len() == cs.len()
    &&& forall|i: int| 0 <= i < cs.len() ==> #[trigger] boxes[i] == contour_box(cs, i)
    &&& forall|i: int|
        0 <= i < cs.len() ==> (#[trigger] children[i])@ == nodes_under(
            cs,
            config,
            Some(i),
            cs.len() as int,
        )
}

fn build_subtree(
    boxes: &Vec<Bounds>,
    children: &Vec<Vec<usize>>,
    p: usize,
    Ghost(cs): Ghost<Seq<Contour>>,
    Ghost(config): Ghost<LayoutConfig>,
) -> (e: UiElement)
    requires
        contours_wf(cs),
        cs.len() <= usize::MAX,
        tables_match(cs, config, boxes@, children@),
        p < cs.len(),
    ensures
        is_contour_subtree(cs, config, p as int, e),
    decreases cs.len() - p,
{
    let ch = &children[p];
    let ghost spec_ch = nodes_under(cs, config, Some(p as int), cs.len() as int);
    proof {
        lemma_nodes_under(cs, config, Some(p as int), cs.len() as int);
    }
    assert(ch@ == spec_ch);
    let mut kids: Vec<UiElement> = Vec::new();
    let mut j: usize = 0;
    while j < ch.len()
        invariant
            contours_wf(cs),
            cs.len() <= usize::MAX,
            tables_match(cs, config, boxes@, children@),
            p < cs.len(),
            ch@ == spec_ch,
            spec_ch == nodes_under(cs, config, Some(p as int), cs.len() as int),
            forall|k: int|
                0 <= k < spec_ch.len() ==> p < #[trigger] spec_ch[k] < cs.len(),
            j <= ch.len(),
            kids@.len() == j,
            subtrees_match(cs, config, spec_ch.take(j as int), kids@),
        decreases ch.len() - j,
    {
        let c = ch[j];
        assert(p < spec_ch[j as int] < cs.len());
        let sub = build_subtree(boxes, children, c, Ghost(cs), Ghost(config));
        proof {
            lemma_subtrees_push(cs, config, spec_ch.take(j as int), kids@, c, sub);
            assert(spec_ch.take(j as int).push(c) == spec_ch.take(j + 1));
        }
        kids.push(sub);
        j = j + 1;
    }
    assert(spec_ch.take(j as int) == spec_ch);
    assert(boxes@[p as int] == contour_box(cs, p as int));
    UiElement::container(boxes[p], kids)
}

/// Build the unpruned layout tree: contour boxes, the filter, the parent links and
/// the container hierarchy. Also returns the filter outcome of every contour.
fn build_hierarchy(contours: &Vec<Contour>, screen: Bounds, config: &LayoutConfig) -> (r: (
    UiElement,
    Vec<ContourKeep>,
))
    requires
        contours_wf(contours@),
    ensures
        is_layout_tree(contours@, *config, screen, r.0),
        r.1@.len() == contours@.len(),
        forall|i: int|
            0 <= i < contours@.len() ==> #[trigger] r.1@[i] == contour_class(contours@, *config, i),
{
    let ghost cs = contours@;
    let n = contours.len();
    let mut boxes: Vec<Bounds> = Vec::new();
    let mut classes: Vec<ContourKeep> = Vec::new();
    let mut kept: Vec<bool> = Vec::new();
    let mut i: usize = 0;
    while i < n
        invariant
            n == cs.len(),
            cs == contours@,
            contours_wf(cs),
            i <= n,
            boxes@.len() == i,
            classes@.len() == i,
            kept@.len() == i,
            forall|k: int| 0 <= k < i ==> #[trigger] boxes@[k] == contour_box(cs, k),
            forall|k: int| 0 <= k < i ==> #[trigger] classes@[k] == contour_class(cs, *config, k),
            forall|k: int| 0 <= k < i ==> #[trigger] kept@[k] == is_kept(cs, *config, k),
        decreases n - i,
    {
        assert(points_wf(cs[i as int].points@));
        let b = contour_bounds(&contours[i]);
        let k = classify_contour(&b, contours[i].is_hole, config);
        boxes.push(b);
        classes.push(k);
        kept.push(k == ContourKeep::Yes);
        i = i + 1;
    }
    // Link every kept contour under its nearest kept ancestor.
    let mut links: Vec<Option<usize>> = Vec::new();
    let mut i: usize = 0;
    while i < n
        invariant
            n == cs.len(),
            cs == contours@,
            contours_wf(cs),
            i <= n,
            boxes@.len() == n,
            kept@.len() == n,
            forall|k: int| 0 <= k < n ==> #[trigger] boxes@[k] == contour_box(cs, k),
            forall|k: int| 0 <= k < n ==> #[trigger] kept@[k] == is_kept(cs, *config, k),
            links@.len() == i,
            forall|k: int|
                0 <= k < i ==> match #[trigger] links@[k] {
                    None => linked_parent(cs, *config, k) is None,
                    Some(a) => linked_parent(cs, *config, k) == Some(a as int),
                },
        decreases n - i,
    {
        let mut link: Option<usize> = None;
        assert(points_wf(cs[i as int].points@));
        if kept[i] {
            let start = contours[i].parent;
            let anc = find_kept_ancestor(contours, start, &kept, Ghost(*config));
            if let Some(a) = anc {
                proof {
                    lemma_kept_ancestor_at(cs, *config, start.unwrap() as int);
                    lemma_points_bounds_wf(cs[i as int].points@);
                    lemma_points_bounds_wf(cs[a as int].points@);
                }
                if boxes[i].iou_at_most(&boxes[a], &config.max_parent_iou) {
                    link = Some(a);
                }
            }
        }
        links.push(link);
        i = i + 1;
    }
    // Children lists and roots, in contour order.
    let mut children: Vec<Vec<usize>> = Vec::new();
    let mut i: usize = 0;
    while i < n
        invariant
            i <= n,
            children@.len() == i,
            forall|k: int| 0 <= k < i ==> (#[trigger] children@[k])@.len() == 0,
        decreases n - i,
    {
        children.push(Vec::new());
        i = i + 1;
    }
    let mut roots: Vec<usize> = Vec::new();
    let mut i: usize = 0;
    while i < n
        invariant
            n == cs.len(),
            cs == contours@,
            contours_wf(cs),
            i <= n,
            kept@.len() == n,
            forall|k: int| 0 <= k < n ==> #[trigger] kept@[k] == is_kept(cs, *config, k),
            links@.len() == n,
            forall|k: int|
                0 <= k < n ==> match #[trigger] links@[k] {
                    None => linked_parent(cs, *config, k) is None,
                    Some(a) => linked_parent(cs, *config, k) == Some(a as int),
                },
            children@.len() == n,
            forall|q: int|
                0 <= q < n ==> (#[trigger] children@[q])@ == nodes_under(
                    cs,
                    *config,
                    Some(q),
                    i as int,
                ),
            roots@ == nodes_under(cs, *config, None, i as int),
        decreases n - i,
    {
        proof {
            lemma_linked_parent_earlier(cs, *config, i as int);
        }
        if kept[i] {
            match links[i] {
                None => {
                    roots.push(i);
                },
                Some(a) => {
                    let ghost before = children@;
                    children[a].push(i);
                    assert forall|q: int| 0 <= q < n implies (#[trigger] children@[q])@
                        == nodes_under(cs, *config, Some(q), i + 1) by {
                        if q != a {
                            assert(children@[q] == before[q]);
                        }
                    }
                },
            }
        }
        i = i + 1;
    }
    let mut kids: Vec<UiElement> = Vec::new();
    let mut j: usize = 0;
    proof {
        lemma_nodes_under(cs, *config, None, n as int);
    }
    while j < roots.len()
        invariant
            n == cs.len(),
            contours_wf(cs),
            tables_match(cs, *config, boxes@, children@),
            roots@ == nodes_under(cs, *config, None, n as int),
            forall|k: int| 0 <= k < roots@.len() ==> #[trigger] roots@[k] < n,
            j <= roots.len(),
            kids@.len() == j,
            subtrees_match(cs, *config, roots@.take(j as int), kids@),
        decreases roots.len() - j,
    {
        assert(roots@[j as int] < n);
        let r = roots[j];
        let sub = build_subtree(&boxes, &children, r, Ghost(cs), Ghost(*config));
        proof {
            lemma_subtrees_push(cs, *config, roots@.take(j as int), kids@, r, sub);
            assert(roots@.take(j as int).push(r) == roots@.take(j + 1));
        }
        kids.push(sub);
        j = j + 1;
    }
    assert(roots@.take(j as int) == roots@);
    (UiElement { bounds: screen, kind: UiElementKind::Root, children: kids }, classes)
}

/// The four insets of `inner` inside `outer`: left, top, right, bottom.
pub open spec fn insets(outer: Bounds, inner: Bounds) -> (int, int, int, int) {
    (
        inner.x - outer.x,
        inner.y - outer.y,
        outer.spec_right() - inner.spec_right(),
        outer.spec_bottom() - inner.spec_bottom(),
    )
}

pub open spec fn inset_in_range(m: int, max_margin: int) -> bool {
    0 <= m <= max_margin
}

pub open spec fn spec_tight_inset(outer: Bounds, inner: Bounds, max_margin: int) -> bool {
    let m = insets(outer, inner);
    &&& inset_in_range(m.0, max_margin)
    &&& inset_in_range(m.1, max_margin)
    &&& inset_in_range(m.2, max_margin)
    &&& inset_in_range(m.3, max_margin)
}

pub open spec fn spec_uniform_inset(outer: Bounds, inner: Bounds, max_margin: int) -> bool {
    let m = insets(outer, inner);
    let lo = crate::types::min_int(crate::types::min_int(m.0, m.1), crate::types::min_int(m.2, m.3));
    let hi = crate::types::max_int(crate::types::max_int(m.0, m.1), crate::types::max_int(m.2, m.3));
    spec_tight_inset(outer, inner, max_margin) && hi - lo <= 6
}

fn inset_values(outer: &Bounds, inner: &Bounds) -> (r: (i64, i64, i64, i64))
    ensures
        r.0 == insets(*outer, *inner).0,
        r.1 == insets(*outer, *inner).1,
        r.2 == insets(*outer, *inner).2,
        r.3 == insets(*outer, *inner).3,
{
    let ox = outer.x as i64;
    let oy = outer.y as i64;
    let ix = inner.x as i64;
    let iy = inner.y as i64;
    let o_right = ox + outer.width as i64;
    let o_bottom = oy + outer.height as i64;
    let i_right = ix + inner.width as i64;
    let i_bottom = iy + inner.height as i64;
    (ix - ox, iy - oy, o_right - i_right, o_bottom - i_bottom)
}

/// All four insets of `inner` inside `outer` lie in `0..=max_margin`.
pub fn is_tight_inset(outer: &Bounds, inner: &Bounds, max_margin: i32) -> (r: bool)
    ensures
        r == spec_tight_inset(*outer, *inner, max_margin as int),
{
    let (a, b, c, d) = inset_values(outer, inner);
    let m = max_margin as i64;
    0 <= a && a <= m && 0 <= b && b <= m && 0 <= c && c <= m && 0 <= d && d <= m
}

/// Tight inset whose four insets differ by at most 6 pixels.
pub fn is_uniform_inset(outer: &Bounds, inner: &Bounds, max_margin: i32) -> (r: bool)
    ensures
        r == spec_uniform_inset(*outer, *inner, max_margin as int),
{
    if !is_tight_inset(outer, inner, max_margin) {
        return false;
    }
    let (a, b, c, d) = inset_values(outer, inner);
    let lo1 = if a <= b { a } else { b };
    let lo2 = if c <= d { c } else { d };
    let lo = if lo1 <= lo2 { lo1 } else { lo2 };
    let hi1 = if a >= b { a } else { b };
    let hi2 = if c >= d { c } else { d };
    let hi = if hi1 >= hi2 { hi1 } else { hi2 };
    hi - lo <= 6
}

/// `child` is a redundant re-detection of its parent's border: a container inside
/// the parent that nearly fills it, sits at a tight inset, or is a small uniformly
/// padded inner box.
pub open spec fn spec_redundant(parent: Bounds, child: UiElement, config: LayoutConfig) -> bool {
    let area = child.bounds.spec_area();
    let parent_area = crate::types::max_int(parent.spec_area(), 1);
    if !(child.kind is Container) {
        false
    } else if !parent.spec_contains(child.bounds) {
        false
    } else if config.max_child_area_ratio.spec_bounds_from_below(area, parent_area) {
        true
    } else if spec_tight_inset(parent, child.bounds, config.max_inset_margin as int) {
        true
    } else {
        config.max_padded_child_area_ratio.spec_bounds_from_above(area, parent_area)
            && spec_uniform_inset(parent, child.bounds, config.max_padding_margin as int)
    }
}

/// Whether `child` is a redundant nested container of a parent with bounds `parent`.
pub fn is_redundant_nested(parent: &Bounds, child: &UiElement, config: &LayoutConfig) -> (r: bool)
    ensures
        r == spec_redundant(*parent, *child, *config),
{
    match child.kind {
        UiElementKind::Container => {},
        _ => {
            return false;
        },
    }
    let (a, b, c, d) = inset_values(parent, &child.bounds);
    if !(a >= 0 && b >= 0 && c >= 0 && d >= 0) {
        return false;
    }
    let area = child.bounds.area();
    let pa = parent.area();
    let parent_area = if pa >= 1 { pa } else { 1 };
    if config.max_child_area_ratio.bounds_from_below(area, parent_area) {
        return true;
    }
    if is_tight_inset(parent, &child.bounds, config.max_inset_margin) {
        return true;
    }
    config.max_padded_child_area_ratio.bounds_from_above(area, parent_area) && is_uniform_inset(
        parent,
        &child.bounds,
        config.max_padding_margin,
    )
}

/// `new` is `old` with every redundant nested container removed, bottom-up: same
/// bounds and kind, and as children the pruned non-redundant children in order.
pub open spec fn pruned(old: UiElement, new: UiElement, config: LayoutConfig) -> bool
    decreases old,
{
    &&& new.bounds == old.bounds
    &&& new.kind == old.kind
    &&& pruned_children(old.bounds, old.children@, new.children@, config)
}

pub open spec fn pruned_children(
    parent: Bounds,
    olds: Seq<UiElement>,
    news: Seq<UiElement>,
    config: LayoutConfig,
) -> bool
    decreases olds,
{
    if olds.len() == 0 {
        news.len() == 0
    } else if spec_redundant(parent, olds.last(), config) {
        pruned_children(parent, olds.drop_last(), news, config)
    } else {
        &&& news.len() > 0
        &&& pruned(olds.last(), news.last(), config)
        &&& pruned_children(parent, olds.drop_last(), news.drop_last(), config)
    }
}

/// No node of the tree has a redundant nested container as a direct child.
pub open spec fn no_redundant(e: UiElement, config: LayoutConfig) -> bool
    decreases e,
{
    children_not_redundant(e.bounds, e.children@, config)
}

pub open spec fn children_not_redundant(parent: Bounds, es: Seq<UiElement>, config: LayoutConfig) -> bool
    decreases es,
{
    if es.len() == 0 {
        true
    } else {
        &&& children_not_redundant(parent, es.drop_last(), config)
        &&& !spec_redundant(parent, es.last(), config)
        &&& no_redundant(es.last(), config)
    }
}

/// Remove redundant nested containers caused by border re-detection.
pub fn prune_redundant(element: &UiElement, config: &LayoutConfig) -> (r: UiElement)
    ensures
        pruned(*element, r, *config),
    decreases element,
{
    let mut kids: Vec<UiElement> = Vec::new();
    let n = element.children.len();
    let mut i: usize = 0;
    while i < n
        invariant
            n == element.children@.len(),
            i <= n,
            pruned_children(element.bounds, element.children@.take(i as int), kids@, *config),
        decreases n - i,
    {
        let child = &element.children[i];
        let ghost olds = element.children@.take(i + 1);
        assert(olds.drop_last() == element.children@.take(i as int));
        assert(olds.last() == *child);
        if !is_redundant_nested(&element.bounds, child, config) {
            assert(decreases_to!(element => element.children));
            let sub = prune_redundant(child, config);
            let ghost before = kids@;
            kids.push(sub);
            assert(kids@.drop_last() == before);
            assert(kids@.last() == sub);
        }
        i = i + 1;
    }
    assert(element.children@.take(n as int) == element.children@);
    UiElement { bounds: element.bounds, kind: clone_kind(&element.kind), children: kids }
}

/// After pruning, no node has a redundant nested container as a direct child.
pub proof fn lemma_pruned_has_no_redundant(old: UiElement, new: UiElement, config: LayoutConfig)
    requires
        pruned(old, new, config),
    ensures
        no_redundant(new, config),
    decreases old,
{
    lemma_pruned_children_not_redundant(old.bounds, old.children@, new.children@, config);
}

proof fn lemma_pruned_children_not_redundant(
    parent: Bounds,
    olds: Seq<UiElement>,
    news: Seq<UiElement>,
    config: LayoutConfig,
)
    requires
        pruned_children(parent, olds, news, config),
    ensures
        children_not_redundant(parent, news, config),
    decreases olds,
{
    if olds.len() == 0 {
        assert(news.len() == 0);
    } else if spec_redundant(parent, olds.last(), config) {
        lemma_pruned_children_not_redundant(parent, olds.drop_last(), news, config);
    } else {
        let o = olds.last();
        let n = news.last();
        assert(pruned(o, n, config));
        assert(pruned(o, n, config) == (n.bounds == o.bounds && n.kind == o.kind
            && pruned_children(o.bounds, o.children@, n.children@, config)));
        lemma_pruned_children_not_redundant(parent, olds.drop_last(), news.drop_last(), config);
        lemma_pruned_has_no_redundant(o, n, config);
        assert(n.bounds == o.bounds && n.kind == o.kind);
        assert(spec_redundant(parent, n, config) == spec_redundant(parent, o, config));
        assert(children_not_redundant(parent, news, config) == (children_not_redundant(
            parent,
            news.drop_last(),
            config,
        ) && !spec_redundant(parent, news.last(), config) && no_redundant(news.last(), config)));
    }
}

proof fn lemma_clean_tree_prunes_to_itself(e: UiElement, config: LayoutConfig)
    requires
        no_redundant(e, config),
    ensures
        pruned(e, e, config),
    decreases e,
{
    lemma_clean_children_prune_to_themselves(e.bounds, e.children@, config);
}

proof fn lemma_clean_children_prune_to_themselves(parent: Bounds, es: Seq<UiElement>, config: LayoutConfig)
    requires
        children_not_redundant(parent, es, config),
    ensures
        pruned_children(parent, es, es, config),
    decreases es,
{
    if es.len() > 0 {
        lemma_clean_children_prune_to_themselves(parent, es.drop_last(), config);
        lemma_clean_tree_prunes_to_itself(es.last(), config);
        assert(pruned_children(parent, es, es, config) == (es.len() > 0 && pruned(
            es.last(),
            es.last(),
            config,
        ) && pruned_children(parent, es.drop_last(), es.drop_last(), config)));
    }
}

/// Pruning is idempotent: pruning a pruned tree gives the same tree back.
pub proof fn lemma_prune_idempotent(old: UiElement, new: UiElement, config: LayoutConfig)
    requires
        pruned(old, new, config),
    ensures
        pruned(new, new, config),
{
    lemma_pruned_has_no_redundant(old, new, config);
    lemma_clean_tree_prunes_to_itself(new, config);
}

/// Number of contours among the first `n` whose filter outcome is `k`.
pub open spec fn count_class(cs: Seq<Contour>, config: LayoutConfig, k: ContourKeep, n: int) -> nat
    decreases n,
{
    if n <= 0 {
        0
    } else {
        count_class(cs, config, k, n - 1) + (if contour_class(cs, config, n - 1) == k {
            1nat
        } else {
            0nat
        })
    }
}

/// The layout tree, the tree before pruning, the filter counts and the filter
/// outcome of every contour.
#[derive(Debug)]
pub struct LayoutTree {
    pub root: UiElement,
    pub before_prune: UiElement,
    pub filter_stats: ContourFilterStats,
    pub classes: Vec<ContourKeep>,
}

pub open spec fn screen_bounds(width: u32, height: u32) -> Bounds {
    Bounds { x: 0, y: 0, width: width as i32, height: height as i32 }
}

/// Every point of every contour lies inside a `width`×`height` image.
pub open spec fn contours_within(cs: Seq<Contour>, width: u32, height: u32) -> bool {
    forall|i: int, k: int|
        0 <= i < cs.len() && 0 <= k < cs[i].points@.len() ==> (#[trigger] cs[i].points@[k]).0
            < width && cs[i].points@[k].1 < height
}

/// Every node of the tree lies inside `screen`.
pub open spec fn tree_within(e: UiElement, screen: Bounds) -> bool
    decreases e,
{
    screen.spec_contains(e.bounds) && forest_within(e.children@, screen)
}

pub open spec fn forest_within(es: Seq<UiElement>, screen: Bounds) -> bool
    decreases es,
{
    es.len() == 0 || (forest_within(es.drop_last(), screen) && tree_within(es.last(), screen))
}

proof fn lemma_extremes_below(points: Seq<(u32, u32)>, width: u32, height: u32)
    requires
        points.len() > 0,
        forall|k: int| 0 <= k < points.len() ==> (#[trigger] points[k]).0 < width && points[k].1 < height,
    ensures
        seq_max_x(points) < width,
        seq_max_y(points) < height,
    decreases points.len(),
{
    let last = points[points.len() - 1];
    assert(points.last() == last);
    assert(last.0 < width && last.1 < height);
    let rest = points.drop_last();
    if rest.len() == 0 {
        assert(seq_max_x(rest) == i32::MIN);
        assert(seq_max_y(rest) == i32::MIN);
    } else {
        assert forall|k: int| 0 <= k < rest.len() implies (#[trigger] rest[k]).0 < width && rest[k].1
            < height by {
            assert(rest[k] == points[k]);
        }
        lemma_extremes_below(rest, width, height);
    }
}

/// The box of a contour inside the image lies inside the screen box.
proof fn lemma_contour_box_within(cs: Seq<Contour>, i: int, width: u32, height: u32)
    requires
        contours_wf(cs),
        contours_within(cs, width, height),
        0 <= i < cs.len(),
        width <= i32::MAX,
        height <= i32::MAX,
    ensures
        screen_bounds(width, height).spec_contains(contour_box(cs, i)),
{
    let pts = cs[i].points@;
    assert(points_wf(pts));
    assert forall|k: int| 0 <= k < pts.len() implies (#[trigger] pts[k]).0 < width && pts[k].1
        < height by {
        assert(cs[i].points@[k] == pts[k]);
    }
    lemma_extremes_in_range(pts);
    lemma_extremes_below(pts, width, height);
}

proof fn lemma_subtree_within(cs: Seq<Contour>, config: LayoutConfig, p: int, e: UiElement, width: u32, height: u32)
    requires
        contours_wf(cs),
        contours_within(cs, width, height),
        cs.len() <= usize::MAX,
        width <= i32::MAX,
        height <= i32::MAX,
        0 <= p < cs.len(),
        is_contour_subtree(cs, config, p, e),
    ensures
        tree_within(e, screen_bounds(width, height)),
    decreases e,
{
    lemma_contour_box_within(cs, p, width, height);
    lemma_nodes_under(cs, config, Some(p), cs.len() as int);
    lemma_forest_within(
        cs,
        config,
        nodes_under(cs, config, Some(p), cs.len() as int),
        e.children@,
        width,
        height,
    );
}

proof fn lemma_forest_within(
    cs: Seq<Contour>,
    config: LayoutConfig,
    idxs: Seq<usize>,
    es: Seq<UiElement>,
    width: u32,
    height: u32,
)
    requires
        contours_wf(cs),
        contours_within(cs, width, height),
        cs.len() <= usize::MAX,
        width <= i32::MAX,
        height <= i32::MAX,
        forall|k: int| 0 <= k < idxs.len() ==> #[trigger] idxs[k] < cs.len(),
        subtrees_match(cs, config, idxs, es),
    ensures
        forest_within(es, screen_bounds(width, height)),
    decreases es,
{
    if es.len() > 0 {
        let rest = idxs.drop_last();
        assert forall|k: int| 0 <= k < rest.len() implies #[trigger] rest[k] < cs.len() by {
            assert(rest[k] == idxs[k]);
        }
        assert(idxs.last() == idxs[idxs.len() - 1]);
        lemma_forest_within(cs, config, rest, es.drop_last(), width, height);
        lemma_subtree_within(cs, config, idxs.last() as int, es.last(), width, height);
    }
}

proof fn lemma_layout_within(cs: Seq<Contour>, config: LayoutConfig, width: u32, height: u32, e: UiElement)
    requires
        contours_wf(cs),
        contours_within(cs, width, height),
        cs.len() <= usize::MAX,
        width <= i32::MAX,
        height <= i32::MAX,
        is_layout_tree(cs, config, screen_bounds(width, height), e),
    ensures
        tree_within(e, screen_bounds(width, height)),
{
    lemma_nodes_under(cs, config, None, cs.len() as int);
    lemma_forest_within(cs, config, nodes_under(cs, config, None, cs.len() as int), e.children@, width, height);
}

/// Pruning removes nodes and keeps the boxes of the rest, so a tree inside a box
/// stays inside it.
proof fn lemma_pruned_within(old: UiElement, new: UiElement, config: LayoutConfig, screen: Bounds)
    requires
        pruned(old, new, config),
        tree_within(old, screen),
    ensures
        tree_within(new, screen),
    decreases old,
{
    lemma_pruned_children_within(old.bounds, old.children@, new.children@, config, screen);
}

proof fn lemma_pruned_children_within(
    parent: Bounds,
    olds: Seq<UiElement>,
    news: Seq<UiElement>,
    config: LayoutConfig,
    screen: Bounds,
)
    requires
        pruned_children(parent, olds, news, config),
        forest_within(olds, screen),
    ensures
        forest_within(news, screen),
    decreases olds,
{
    if olds.len() == 0 {
        assert(news.len() == 0);
    } else if spec_redundant(parent, olds.last(), config) {
        lemma_pruned_children_within(parent, olds.drop_last(), news, config, screen);
    } else {
        let o = olds.last();
        let n = news.last();
        assert(pruned(o, n, config));
        lemma_pruned_children_within(parent, olds.drop_last(), news.drop_last(), config, screen);
        lemma_pruned_within(o, n, config, screen);
    }
}

/// Build the hierarchical layout tree of a screenshot from its traced contours.
///
/// Contours are filtered by their boxes, each kept contour is linked under its
/// nearest kept ancestor unless their IoU exceeds `max_parent_iou`, unlinked kept
/// contours become children of a root with the screen bounds, and redundant nested
/// containers are then pruned.
pub fn build_layout(contours: &Vec<Contour>, width: u32, height: u32, config: &LayoutConfig) -> (out:
    LayoutTree)
    requires
        contours_wf(contours@),
        width <= i32::MAX,
        height <= i32::MAX,
    ensures
        is_layout_tree(contours@, *config, screen_bounds(width, height), out.before_prune),
        pruned(out.before_prune, out.root, *config),
        out.classes@.len() == contours@.len(),
        forall|i: int|
            0 <= i < contours@.len() ==> #[trigger] out.classes@[i] == contour_class(
                contours@,
                *config,
                i,
            ),
        out.filter_stats.total == contours@.len(),
        out.filter_stats.kept == count_class(contours@, *config, ContourKeep::Yes, contours@.len() as int),
        out.filter_stats.dropped_hole == count_class(
            contours@,
            *config,
            ContourKeep::HoleTooSmall,
            contours@.len() as int,
        ),
        out.filter_stats.dropped_area == count_class(
            contours@,
            *config,
            ContourKeep::AreaTooSmall,
            contours@.len() as int,
        ),
        out.filter_stats.dropped_thin == count_class(
            contours@,
            *config,
            ContourKeep::TooThin,
            contours@.len() as int,
        ),
        out.filter_stats.kept + out.filter_stats.dropped_hole + out.filter_stats.dropped_area
            + out.filter_stats.dropped_thin == out.filter_stats.total,
        contours_within(contours@, width, height) ==> tree_within(
            out.before_prune,
            screen_bounds(width, height),
        ) && tree_within(out.root, screen_bounds(width, height)),
{
    let screen = Bounds::new(0, 0, width as i32, height as i32);
    let (before_prune, classes) = build_hierarchy(contours, screen, config);
    let ghost cs = contours@;
    let n = contours.len();
    let mut stats = ContourFilterStats {
        total: n,
        kept: 0,
        dropped_hole: 0,
        dropped_area: 0,
        dropped_thin: 0,
    };
    let mut i: usize = 0;
    while i < n
        invariant
            n == cs.len(),
            classes@.len() == n,
            forall|k: int| 0 <= k < n ==> #[trigger] classes@[k] == contour_class(cs, *config, k),
            i <= n,
            stats.total == n,
            stats.kept == count_class(cs, *config, ContourKeep::Yes, i as int),
            stats.dropped_hole == count_class(cs, *config, ContourKeep::HoleTooSmall, i as int),
            stats.dropped_area == count_class(cs, *config, ContourKeep::AreaTooSmall, i as int),
            stats.dropped_thin == count_class(cs, *config, ContourKeep::TooThin, i as int),
            stats.kept + stats.dropped_hole + stats.dropped_area + stats.dropped_thin == i,
        decreases n - i,
    {
        match classes[i] {
            ContourKeep::Yes => stats.kept = stats.kept + 1,
            ContourKeep::HoleTooSmall => stats.dropped_hole = stats.dropped_hole + 1,
            ContourKeep::AreaTooSmall => stats.dropped_area = stats.dropped_area + 1,
            ContourKeep::TooThin => stats.dropped_thin = stats.dropped_thin + 1,
        }
        i = i + 1;
    }
    let root = prune_redundant(&before_prune, config);
    proof {
        if contours_within(cs, width, height) {
            lemma_layout_within(cs, *config, width, height, before_prune);
            lemma_pruned_within(before_prune, root, *config, screen_bounds(width, height));
        }
    }
    LayoutTree { root, before_prune, filter_stats: stats, classes }
}

} // verus!
