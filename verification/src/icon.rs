//! Icon candidates of the layout tree: which leaves may be icons, where they are,
//! the gray crop handed to the embedder, and writing matched icons back.
use vstd::prelude::*;

use crate::imaging::GrayPixels;
use crate::types::{Bounds, Ratio, UiElement, UiElementKind};

verus! {

/// Limits that a leaf's box must meet to be matched against the icon templates.
/// `min_cosine` is the least similarity that counts as a match.
#[derive(Debug, Clone, Copy, PartialEq, Eq, Structural)]
pub struct IconConfig {
    pub template_size: u32,
    pub min_cosine: Ratio,
    pub min_side: i32,
    pub max_side: i32,
    pub min_aspect: Ratio,
    pub max_aspect: Ratio,
}

impl Default for IconConfig {
    /// Templates of 48 px, cosine at least 0.72, sides from 12 to 96 px, width over
    /// height from 0.55 to 1.85.
    fn default() -> (c: IconConfig)
        ensures
            c == IconConfig::default_spec(),
            c.template_size == 48,
            c.min_cosine == (Ratio { num: 18, den: 25 }),
            c.min_side == 12,
            c.max_side == 96,
            c.min_aspect == (Ratio { num: 11, den: 20 }),
            c.max_aspect == (Ratio { num: 37, den: 20 }),
            c.wf(),
    {
        IconConfig {
            template_size: 48,
            min_cosine: Ratio { num: 18, den: 25 },
            min_side: 12,
            max_side: 96,
            min_aspect: Ratio { num: 11, den: 20 },
            max_aspect: Ratio { num: 37, den: 20 },
        }
    }
}

impl IconConfig {
    /// The default limits (see `default`).
    pub open spec fn default_spec() -> IconConfig {
        IconConfig {
            template_size: 48,
            min_cosine: Ratio { num: 18, den: 25 },
            min_side: 12,
            max_side: 96,
            min_aspect: Ratio { num: 11, den: 20 },
            max_aspect: Ratio { num: 37, den: 20 },
        }
    }

    pub open spec fn wf(self) -> bool {
        self.min_aspect.wf() && self.max_aspect.wf() && self.min_cosine.wf()
    }
}

/// Some node below the first `n` children (a child or deeper) is text.
pub open spec fn forest_has_text(s: Seq<UiElement>) -> bool
    decreases s,
{
    if s.len() == 0 {
        false
    } else {
        forest_has_text(s.drop_last()) || s.last().kind is Text || spec_has_text_descendant(
            s.last(),
        )
    }
}

pub open spec fn spec_has_text_descendant(e: UiElement) -> bool
    decreases e,
{
    forest_has_text(e.children@)
}

pub open spec fn min_int(a: int, b: int) -> int {
    if a <= b { a } else { b }
}

pub open spec fn max_int(a: int, b: int) -> int {
    if a >= b { a } else { b }
}

/// A childless container without text whose shorter side is at least
/// `min_side`, whose longer side is at most `max_side`, and whose width over
/// height (height taken as at least 1) lies between the two aspect limits.
pub open spec fn spec_is_icon_candidate(e: UiElement, c: IconConfig) -> bool {
    let b = e.bounds;
    let hh = max_int(b.height as int, 1);
    &&& e.kind is Container
    &&& e.children@.len() == 0
    &&& !spec_has_text_descendant(e)
    &&& min_int(b.width as int, b.height as int) >= c.min_side
    &&& max_int(b.width as int, b.height as int) <= c.max_side
    &&& c.min_aspect.spec_bounds_from_below(b.width as int, hh)
    &&& c.max_aspect.spec_bounds_from_above(b.width as int, hh)
}

/// Whether some node below `element` is text.
pub fn has_text_descendant(element: &UiElement) -> (r: bool)
    ensures
        r == spec_has_text_descendant(*element),
    decreases element,
{
    let n = element.children.len();
    let mut i: usize = 0;
    let mut found = false;
    while i < n
        invariant
            n == element.children@.len(),
            i <= n,
            found == forest_has_text(element.children@.take(i as int)),
        decreases n - i,
    {
        let child = &element.children[i];
        let hit = match child.kind {
            UiElementKind::Text { .. } => true,
            _ => has_text_descendant(child),
        };
        let ghost t = element.children@.take(i + 1);
        assert(t.drop_last() == element.children@.take(i as int));
        assert(t.last() == element.children@[i as int]);
        found = found || hit;
        i = i + 1;
    }
    assert(element.children@.take(n as int) == element.children@);
    found
}

/// Whether `element` is a leaf worth matching against the icon templates.
pub fn is_icon_candidate(element: &UiElement, config: &IconConfig) -> (r: bool)
    requires
        config.wf(),
    ensures
        r == spec_is_icon_candidate(*element, *config),
{
    match element.kind {
        UiElementKind::Container => {},
        _ => {
            return false;
        },
    }
    if element.children.len() > 0 {
        return false;
    }
    if has_text_descendant(element) {
        return false;
    }
    let b = &element.bounds;
    let short = if b.width <= b.height { b.width } else { b.height };
    let long = if b.width >= b.height { b.width } else { b.height };
    if short < config.min_side || long > config.max_side {
        return false;
    }
    let hh: i64 = if b.height >= 1 { b.height as i64 } else { 1 };
    config.min_aspect.bounds_from_below(b.width as i64, hh) && config.max_aspect.bounds_from_above(
        b.width as i64,
        hh,
    )
}

/// A candidate found in the tree: the child indices leading to it from the root,
/// and its box.
#[derive(Debug, Clone)]
pub struct IconJob {
    pub path: Vec<usize>,
    pub bounds: Bounds,
}

/// The candidates below `e` in pre-order, with their paths extended from `prefix`:
/// for each child in order, the child itself if it is a candidate, then the
/// candidates below it.
pub open spec fn spec_icon_jobs(e: UiElement, prefix: Seq<usize>, c: IconConfig) -> Seq<
    (Seq<usize>, Bounds),
>
    decreases e,
{
    forest_icon_jobs(e.children@, prefix, c)
}

pub open spec fn forest_icon_jobs(s: Seq<UiElement>, prefix: Seq<usize>, c: IconConfig) -> Seq<
    (Seq<usize>, Bounds),
>
    decreases s,
{
    if s.len() == 0 {
        Seq::empty()
    } else {
        let i = s.len() - 1;
        let p = prefix.push(i as usize);
        let own: Seq<(Seq<usize>, Bounds)> = if spec_is_icon_candidate(s.last(), c) {
            seq![(p, s.last().bounds)]
        } else {
            Seq::empty()
        };
        forest_icon_jobs(s.drop_last(), prefix, c) + own + spec_icon_jobs(s.last(), p, c)
    }
}

pub open spec fn job_views(jobs: Seq<IconJob>) -> Seq<(Seq<usize>, Bounds)> {
    Seq::new(jobs.len(), |i: int| (jobs[i].path@, jobs[i].bounds))
}

fn copy_path(p: &Vec<usize>) -> (r: Vec<usize>)
    ensures
        r@ == p@,
{
    let mut r: Vec<usize> = Vec::new();
    let mut k: usize = 0;
    while k < p.len()
        invariant
            k <= p@.len(),
            r@ == p@.take(k as int),
        decreases p@.len() - k,
    {
        r.push(p[k]);
        assert(r@ =~= p@.take(k + 1));
        k = k + 1;
    }
    assert(p@.take(p@.len() as int) =~= p@);
    r
}

/// Appends to `jobs` the icon candidates below `node`, in pre-order, with paths
/// that extend `path`; `path` is left as it was.
pub fn collect_icon_jobs(
    node: &UiElement,
    path: &mut Vec<usize>,
    config: &IconConfig,
    jobs: &mut Vec<IconJob>,
)
    requires
        config.wf(),
    ensures
        final(path)@ == old(path)@,
        job_views(final(jobs)@) == job_views(old(jobs)@) + spec_icon_jobs(
            *node,
            old(path)@,
            *config,
        ),
    decreases node,
{
    let ghost prefix = path@;
    let ghost start = job_views(jobs@);
    let n = node.children.len();
    let mut i: usize = 0;
    while i < n
        invariant
            n == node.children@.len(),
            config.wf(),
            i <= n,
            path@ == prefix,
            job_views(jobs@) == start + forest_icon_jobs(node.children@.take(i as int), prefix, *config),
        decreases n - i,
    {
        let child = &node.children[i];
        let ghost t = node.children@.take(i + 1);
        assert(t.drop_last() == node.children@.take(i as int));
        assert(t.last() == node.children@[i as int]);
        let ghost before = job_views(jobs@);
        let ghost own: Seq<(Seq<usize>, Bounds)> = if spec_is_icon_candidate(*child, *config) {
            seq![(prefix.push(i), child.bounds)]
        } else {
            Seq::empty()
        };
        if is_icon_candidate(child, config) {
            let mut p = copy_path(path);
            p.push(i);
            jobs.push(IconJob { path: p, bounds: child.bounds });
            assert(job_views(jobs@) =~= before + own);
        } else {
            assert(job_views(jobs@) =~= before + own);
        }
        path.push(i);
        let ghost mid = job_views(jobs@);
        collect_icon_jobs(child, path, config, jobs);
        path.pop();
        assert(path@ =~= prefix);
        assert(job_views(jobs@) == mid + spec_icon_jobs(*child, prefix.push(i), *config));
        assert(job_views(jobs@) =~= start + forest_icon_jobs(t, prefix, *config));
        i = i + 1;
    }
    assert(node.children@.take(n as int) == node.children@);
}

/// The part of a `w`×`h` image that a box covers: `(x0, y0, x1, y1)`.
pub open spec fn crop_window(w: int, h: int, b: Bounds) -> (int, int, int, int) {
    (max_int(b.x as int, 0), max_int(b.y as int, 0), min_int(b.spec_right(), w), min_int(
        b.spec_bottom(),
        h,
    ))
}

/// `out` is the window `(x0, y0)`–`(x1, y1)` of `gray`.
pub open spec fn is_crop(gray: GrayPixels, x0: int, y0: int, x1: int, y1: int, out: GrayPixels) -> bool {
    &&& out.width == x1 - x0
    &&& out.height == y1 - y0
    &&& out.pixels@.len() == out.width * out.height
    &&& forall|y: int, x: int|
        0 <= y < out.height && 0 <= x < out.width ==> #[trigger] out.pixels@[y * out.width + x]
            == gray.pixels@[(y0 + y) * gray.width + x0 + x]
}

/// The part of `gray` that `bounds` covers, clipped to the image; `None` when
/// nothing of it lies inside.
pub fn crop_gray(gray: &GrayPixels, bounds: &Bounds) -> (r: Option<GrayPixels>)
    requires
        gray.wf(),
        gray.width <= i32::MAX,
        gray.height <= i32::MAX,
        bounds.wf(),
    ensures
        ({
            let (x0, y0, x1, y1) = crop_window(gray.width as int, gray.height as int, *bounds);
            match r {
                None => x1 <= x0 || y1 <= y0,
                Some(out) => x0 < x1 && y0 < y1 && is_crop(*gray, x0, y0, x1, y1, out),
            }
        }),
{
    let gw = gray.width as i32;
    let gh = gray.height as i32;
    let x0 = if bounds.x >= 0 { bounds.x } else { 0 };
    let y0 = if bounds.y >= 0 { bounds.y } else { 0 };
    let right = bounds.x + bounds.width;
    let bottom = bounds.y + bounds.height;
    let x1 = if right <= gw { right } else { gw };
    let y1 = if bottom <= gh { bottom } else { gh };
    if x1 <= x0 || y1 <= y0 {
        return None;
    }
    let w = (x1 - x0) as usize;
    let h = (y1 - y0) as usize;
    let ux0 = x0 as usize;
    let uy0 = y0 as usize;
    let stride = gray.width as usize;
    let ghost src = gray.pixels@;
    let total = gray.pixels.len();
    proof {
        assert(w * h <= stride * (gray.height as int)) by (nonlinear_arith)
            requires w <= stride, h <= gray.height;
        assert(src.len() == (gray.height as int) * stride) by (nonlinear_arith)
            requires src.len() == gray.width * gray.height, stride == gray.width;
    }
    let mut out: Vec<u8> = Vec::new();
    let mut y: usize = 0;
    while y < h
        invariant
            y <= h,
            w > 0,
            h > 0,
            ux0 + w <= stride,
            uy0 + h <= gray.height,
            stride == gray.width,
            src == gray.pixels@,
            total == src.len(),
            src.len() == (gray.height as int) * stride,
            w * h <= stride * gray.height,
            out@.len() == y * w,
            forall|yy: int, xx: int|
                0 <= yy < y && 0 <= xx < w ==> #[trigger] out@[yy * w + xx] == src[(uy0 + yy)
                    * stride + ux0 + xx],
        decreases h - y,
    {
        let mut x: usize = 0;
        proof {
            assert((uy0 + y + 1) * stride <= (gray.height as int) * stride) by (nonlinear_arith)
                requires uy0 + y + 1 <= gray.height;
            assert((uy0 + y) * stride + stride == (uy0 + y + 1) * stride) by (nonlinear_arith);
            assert((y + 1) * w <= h * w) by (nonlinear_arith)
                requires y + 1 <= h;
            assert(y * w + w == (y + 1) * w) by (nonlinear_arith);
        }
        let row = (uy0 + y) * stride;
        while x < w
            invariant
                x <= w,
                y < h,
                w > 0,
                ux0 + w <= stride,
                row == (uy0 + y) * stride,
                row + stride <= src.len(),
                total == src.len(),
                src == gray.pixels@,
                (y + 1) * w <= w * h,
                y * w + w == (y + 1) * w,
                out@.len() == y * w + x,
                forall|yy: int, xx: int|
                    0 <= yy < y && 0 <= xx < w ==> #[trigger] out@[yy * w + xx] == src[(uy0 + yy)
                        * stride + ux0 + xx],
                forall|xx: int| 0 <= xx < x ==> #[trigger] out@[y * w + xx] == src[row + ux0 + xx],
            decreases w - x,
        {
            let ghost before = out@;
            out.push(gray.pixels[row + ux0 + x]);
            assert forall|yy: int, xx: int|
                0 <= yy < y && 0 <= xx < w implies #[trigger] out@[yy * w + xx] == src[(uy0 + yy)
                * stride + ux0 + xx] by {
                assert(yy * w + xx < y * w) by (nonlinear_arith)
                    requires yy < y, xx < w, 0 <= yy, 0 <= xx;
                assert(out@[yy * w + xx] == before[yy * w + xx]);
            }
            x = x + 1;
        }
        proof {
            assert forall|yy: int, xx: int|
                0 <= yy < y + 1 && 0 <= xx < w implies #[trigger] out@[yy * w + xx] == src[(uy0
                + yy) * stride + ux0 + xx] by {
                if yy == y {
                    assert(out@[y * w + xx] == src[row + ux0 + xx]);
                }
            }
        }
        y = y + 1;
    }
    assert(out@.len() == w * h) by {
        assert(h * w == w * h) by (nonlinear_arith);
    }
    let out_img = GrayPixels { width: w as u32, height: h as u32, pixels: out };
    assert forall|yy: int, xx: int|
        0 <= yy < out_img.height && 0 <= xx < out_img.width implies #[trigger] out_img.pixels@[yy
        * out_img.width + xx] == gray.pixels@[(y0 + yy) * gray.width + x0 + xx] by {
        assert(out@[yy * w + xx] == src[(uy0 + yy) * stride + ux0 + xx]);
    }
    Some(out_img)
}


/// A template matched to a candidate: the icon's name and the similarity (bit
/// pattern of an `f32`).
#[derive(Debug, Clone)]
pub struct IconHit {
    pub name: String,
    pub confidence: u32,
}

/// The node that `path` leads to from `e`, following child indices.
pub open spec fn node_at(e: UiElement, path: Seq<usize>) -> Option<UiElement>
    decreases path.len(),
{
    if path.len() == 0 {
        Some(e)
    } else if path[0] < e.children@.len() {
        node_at(e.children@[path[0] as int], path.skip(1))
    } else {
        None
    }
}

/// `new` is `old` with the node at `path` replaced by an icon leaf of the same box
/// carrying `hit`.
pub open spec fn replaced_at(old: UiElement, new: UiElement, path: Seq<usize>, hit: IconHit) -> bool
    decreases path.len(),
{
    if path.len() == 0 {
        &&& new.bounds == old.bounds
        &&& new.kind == (UiElementKind::Icon { name: hit.name, confidence: Some(hit.confidence) })
        &&& new.children@.len() == 0
    } else {
        let i = path[0] as int;
        &&& 0 <= i < old.children@.len()
        &&& new.bounds == old.bounds
        &&& new.kind == old.kind
        &&& new.children@.len() == old.children@.len()
        &&& forall|j: int|
            0 <= j < old.children@.len() && j != i ==> #[trigger] new.children@[j]
                == old.children@[j]
        &&& replaced_at(old.children@[i], new.children@[i], path.skip(1), hit)
    }
}

/// Whether `path[depth..]` leads from `node` to a node.
fn leads_to_node(node: &UiElement, path: &Vec<usize>, depth: usize) -> (r: bool)
    requires
        depth <= path@.len(),
    ensures
        r == node_at(*node, path@.skip(depth as int)) is Some,
    decreases path@.len() - depth,
{
    let ghost rest = path@.skip(depth as int);
    if depth == path.len() {
        assert(rest.len() == 0);
        return true;
    }
    let i = path[depth];
    assert(rest[0] == i);
    assert(rest.skip(1) =~= path@.skip(depth + 1));
    if i >= node.children.len() {
        return false;
    }
    leads_to_node(&node.children[i], path, depth + 1)
}

/// Replaces the node at `path[depth..]` below `node` by an icon leaf of the same
/// box.
fn set_icon_at(node: &mut UiElement, path: &Vec<usize>, depth: usize, hit: IconHit)
    requires
        depth <= path@.len(),
        node_at(*old(node), path@.skip(depth as int)) is Some,
    ensures
        replaced_at(*old(node), *final(node), path@.skip(depth as int), hit),
    decreases path@.len() - depth,
{
    let ghost rest = path@.skip(depth as int);
    if depth == path.len() {
        assert(rest.len() == 0);
        let b = node.bounds;
        *node = UiElement::icon(b, hit.name, Some(hit.confidence));
        return;
    }
    let i = path[depth];
    assert(rest[0] == i);
    assert(rest.skip(1) =~= path@.skip(depth + 1));
    let ghost old_children = node.children@;
    set_icon_at(&mut node.children[i], path, depth + 1, hit);
    assert forall|j: int| 0 <= j < old_children.len() && j != i implies #[trigger] node.children@[j]
        == old_children[j] by {}
}

/// One step of writing hits back: with a hit whose path leads to a node, that
/// node becomes an icon leaf; otherwise nothing changes.
pub open spec fn hit_step(before: UiElement, after: UiElement, path: Seq<usize>, hit: Option<IconHit>) -> bool {
    match hit {
        None => after == before,
        Some(h) => if node_at(before, path) is Some {
            replaced_at(before, after, path, h)
        } else {
            after == before
        },
    }
}

/// `trees` are the successive trees while the first `n` hits are written back.
pub open spec fn hits_trace(
    trees: Seq<UiElement>,
    jobs: Seq<IconJob>,
    hits: Seq<Option<IconHit>>,
    n: int,
) -> bool {
    &&& trees.len() == n + 1
    &&& forall|k: int| 0 <= k < n ==> hit_step(#[trigger] trees[k], trees[k + 1], jobs[k].path@, hits[k])
}

/// Regions without a match stay as they were: when none of the first `n` hits is
/// present, writing them back leaves the tree unchanged and writes no icon.
pub proof fn lemma_unmatched_regions_unchanged(
    trees: Seq<UiElement>,
    jobs: Seq<IconJob>,
    hits: Seq<Option<IconHit>>,
    n: int,
)
    requires
        0 <= n,
        hits_trace(trees, jobs, hits, n),
        forall|k: int| 0 <= k < n ==> (#[trigger] hits[k]) is None,
    ensures
        trees[n] == trees[0],
        written_count(trees, jobs, hits, n) == 0,
    decreases n,
{
    if n > 0 {
        assert(hits_trace(trees.take(n), jobs, hits, n - 1)) by {
            assert forall|k: int| 0 <= k < n - 1 implies hit_step(
                #[trigger] trees.take(n)[k],
                trees.take(n)[k + 1],
                jobs[k].path@,
                hits[k],
            ) by {
                assert(hit_step(trees[k], trees[k + 1], jobs[k].path@, hits[k]));
            }
        }
        lemma_unmatched_regions_unchanged(trees.take(n), jobs, hits, n - 1);
        assert(hit_step(trees[n - 1], trees[n], jobs[n - 1].path@, hits[n - 1]));
        lemma_written_count_prefix(trees.take(n), trees, jobs, hits, n - 1);
    }
}

/// How many of the first `n` steps of the trace wrote an icon.
pub open spec fn written_count(
    trees: Seq<UiElement>,
    jobs: Seq<IconJob>,
    hits: Seq<Option<IconHit>>,
    n: int,
) -> int
    decreases n,
{
    if n <= 0 {
        0
    } else {
        written_count(trees, jobs, hits, n - 1) + if hits[n - 1] is Some && node_at(
            trees[n - 1],
            jobs[n - 1].path@,
        ) is Some {
            1int
        } else {
            0int
        }
    }
}

/// Writes the hits back into the tree, pairing the `k`-th job with the `k`-th hit
/// (as far as both lists go); returns how many icons were written.
pub fn apply_icon_hits(root: &mut UiElement, jobs: &Vec<IconJob>, hits: Vec<Option<IconHit>>) -> (matched: usize)
    ensures
        ({
            let n = if jobs@.len() <= hits@.len() { jobs@.len() } else { hits@.len() };
            exists|trees: Seq<UiElement>|
                #![trigger trees.len()]
                hits_trace(trees, jobs@, hits@, n as int) && trees[0] == *old(root) && trees[n as int]
                    == *final(root) && matched == written_count(trees, jobs@, hits@, n as int)
        }),
{
    let n = if jobs.len() <= hits.len() { jobs.len() } else { hits.len() };
    let ghost all_hits = hits@;
    let mut hits = hits;
    let mut matched: usize = 0;
    let ghost mut trees: Seq<UiElement> = seq![*root];
    let mut k: usize = 0;
    while k < n
        invariant
            n <= jobs@.len(),
            n <= all_hits.len(),
            hits@.len() == all_hits.len(),
            forall|q: int| k <= q < all_hits.len() ==> #[trigger] hits@[q] == all_hits[q],
            k <= n,
            hits_trace(trees, jobs@, all_hits, k as int),
            trees[0] == *old(root),
            trees[k as int] == *root,
            matched == written_count(trees, jobs@, all_hits, k as int),
            matched <= k,
        decreases n - k,
    {
        let ghost before = *root;
        let mut hit: Option<IconHit> = None;
        std::mem::swap(&mut hit, &mut hits[k]);
        assert(hit == all_hits[k as int]);
        let ghost prev_trees = trees;
        match hit {
            Some(h) => {
                assert(jobs@[k as int].path@.skip(0) =~= jobs@[k as int].path@);
                if leads_to_node(root, &jobs[k].path, 0) {
                    set_icon_at(root, &jobs[k].path, 0, h);
                    matched = matched + 1;
                }
            },
            None => {},
        }
        proof {
            trees = trees.push(*root);
            assert forall|q: int| 0 <= q < k + 1 implies hit_step(
                #[trigger] trees[q],
                trees[q + 1],
                jobs@[q].path@,
                all_hits[q],
            ) by {
                if q < k {
                    assert(trees[q] == prev_trees[q]);
                    assert(trees[q + 1] == prev_trees[q + 1]);
                }
            }
            assert forall|q: int| 0 <= q < k implies #[trigger] written_count(trees, jobs@, all_hits, q)
                == written_count(prev_trees, jobs@, all_hits, q) by {
                lemma_written_count_prefix(prev_trees, trees, jobs@, all_hits, q);
            }
            lemma_written_count_prefix(prev_trees, trees, jobs@, all_hits, k as int);
        }
        k = k + 1;
    }
    assert(hits_trace(trees, jobs@, all_hits, n as int));
    matched
}

proof fn lemma_written_count_prefix(
    a: Seq<UiElement>,
    b: Seq<UiElement>,
    jobs: Seq<IconJob>,
    hits: Seq<Option<IconHit>>,
    n: int,
)
    requires
        0 <= n,
        n <= a.len(),
        n <= b.len(),
        forall|q: int| 0 <= q < n ==> a[q] == b[q],
    ensures
        written_count(a, jobs, hits, n) == written_count(b, jobs, hits, n),
    decreases n,
{
    if n > 0 {
        lemma_written_count_prefix(a, b, jobs, hits, n - 1);
    }
}


/// The job `(p, b)` listed under `prefix` for the forest `s` leads to a candidate:
/// `p` extends `prefix` by an index into `s` and a path below that child.
pub open spec fn forest_job_target(s: Seq<UiElement>, prefix: Seq<usize>, p: Seq<usize>, b: Bounds, c: IconConfig) -> bool {
    let k = prefix.len() as int;
    &&& p.len() > k
    &&& p.take(k) == prefix
    &&& p[k] < s.len()
    &&& node_at(s[p[k] as int], p.skip(k + 1)) matches Some(n) && spec_is_icon_candidate(n, c) && n.bounds == b
}

/// The job `(p, b)` listed under `prefix` for the node `e` leads to a candidate.
pub open spec fn job_target(e: UiElement, prefix: Seq<usize>, p: Seq<usize>, b: Bounds, c: IconConfig) -> bool {
    let k = prefix.len() as int;
    &&& p.len() >= k
    &&& p.take(k) == prefix
    &&& node_at(e, p.skip(k)) matches Some(n) && spec_is_icon_candidate(n, c) && n.bounds == b
}

proof fn lemma_forest_jobs_targets(s: Seq<UiElement>, prefix: Seq<usize>, c: IconConfig)
    requires
        s.len() <= usize::MAX,
    ensures
        forall|j: int|
            0 <= j < forest_icon_jobs(s, prefix, c).len() ==> forest_job_target(
                s,
                prefix,
                (#[trigger] forest_icon_jobs(s, prefix, c)[j]).0,
                forest_icon_jobs(s, prefix, c)[j].1,
                c,
            ),
    decreases s,
{
    if s.len() > 0 {
        let i = s.len() - 1;
        let k = prefix.len() as int;
        let pi = prefix.push(i as usize);
        let head = s.drop_last();
        let last = s.last();
        lemma_forest_jobs_targets(head, prefix, c);
        lemma_node_jobs_targets(last, pi, c);
        let a = forest_icon_jobs(head, prefix, c);
        let own: Seq<(Seq<usize>, Bounds)> = if spec_is_icon_candidate(last, c) {
            seq![(pi, last.bounds)]
        } else {
            Seq::empty()
        };
        let d = spec_icon_jobs(last, pi, c);
        let all = forest_icon_jobs(s, prefix, c);
        assert(all == a + own + d);
        assert forall|j: int| 0 <= j < all.len() implies forest_job_target(
            s,
            prefix,
            (#[trigger] all[j]).0,
            all[j].1,
            c,
        ) by {
            let p = all[j].0;
            if j < a.len() {
                assert(all[j] == a[j]);
                assert(forest_job_target(head, prefix, p, all[j].1, c));
                assert(s[p[k] as int] == head[p[k] as int]);
            } else if j < a.len() + own.len() {
                assert(all[j] == own[j - a.len()]);
                assert(p == pi);
                assert(p.take(k) =~= prefix);
                assert(p.skip(k + 1) =~= Seq::<usize>::empty());
            } else {
                assert(all[j] == d[j - a.len() - own.len()]);
                assert(job_target(last, pi, p, all[j].1, c));
                assert(p.take(k) =~= p.take(k + 1).take(k));
                assert(p.take(k + 1)[k] == p[k]);
                assert(pi.take(k) =~= prefix);
                assert(pi[k] == i);
                assert(s[i] == last);
            }
        }
    }
}

proof fn lemma_node_jobs_targets(e: UiElement, prefix: Seq<usize>, c: IconConfig)
    ensures
        forall|j: int|
            0 <= j < spec_icon_jobs(e, prefix, c).len() ==> job_target(
                e,
                prefix,
                (#[trigger] spec_icon_jobs(e, prefix, c)[j]).0,
                spec_icon_jobs(e, prefix, c)[j].1,
                c,
            ),
    decreases e,
{
    let k = prefix.len() as int;
    let jobs = spec_icon_jobs(e, prefix, c);
    vstd::std_specs::vec::axiom_spec_len(&e.children);
    lemma_forest_jobs_targets(e.children@, prefix, c);
    assert forall|j: int| 0 <= j < jobs.len() implies job_target(
        e,
        prefix,
        (#[trigger] jobs[j]).0,
        jobs[j].1,
        c,
    ) by {
        let p = jobs[j].0;
        assert(jobs[j] == forest_icon_jobs(e.children@, prefix, c)[j]);
        assert(forest_job_target(e.children@, prefix, p, jobs[j].1, c));
        let r = p.skip(k);
        assert(r[0] == p[k]);
        assert(r.skip(1) =~= p.skip(k + 1));
    }
}

/// Every job listed from the root leads, by its path, to a node that is an icon
/// candidate and has the job's box.
pub proof fn lemma_jobs_lead_to_candidates(root: UiElement, c: IconConfig)
    ensures
        forall|j: int|
            0 <= j < spec_icon_jobs(root, Seq::empty(), c).len() ==> (node_at(
                root,
                (#[trigger] spec_icon_jobs(root, Seq::empty(), c)[j]).0,
            ) matches Some(n) && spec_is_icon_candidate(n, c) && n.bounds == spec_icon_jobs(
                root,
                Seq::empty(),
                c,
            )[j].1),
{
    let jobs = spec_icon_jobs(root, Seq::empty(), c);
    lemma_node_jobs_targets(root, Seq::empty(), c);
    assert forall|j: int| 0 <= j < jobs.len() implies (node_at(root, (#[trigger] jobs[j]).0) matches Some(
        n,
    ) && spec_is_icon_candidate(n, c) && n.bounds == jobs[j].1) by {
        assert(job_target(root, Seq::empty(), jobs[j].0, jobs[j].1, c));
        assert(jobs[j].0.skip(0) =~= jobs[j].0);
    }
}

/// `new` is `old` with some of its icon candidates (by `c`) turned into icon leaves
/// of the same box; nothing else differs.
pub open spec fn icons_written(old: UiElement, new: UiElement, c: IconConfig) -> bool
    decreases old,
{
    ||| new == old
    ||| (spec_is_icon_candidate(old, c) && new.bounds == old.bounds && new.kind is Icon
        && new.children@.len() == 0)
    ||| (new.bounds == old.bounds && new.kind == old.kind && forest_icons_written(
        old.children@,
        new.children@,
        c,
    ))
}

pub open spec fn forest_icons_written(olds: Seq<UiElement>, news: Seq<UiElement>, c: IconConfig) -> bool
    decreases olds,
{
    if olds.len() == 0 {
        news.len() == 0
    } else {
        &&& news.len() == olds.len()
        &&& forest_icons_written(olds.drop_last(), news.drop_last(), c)
        &&& icons_written(olds.last(), news.last(), c)
    }
}

proof fn lemma_forest_icons_written_index(olds: Seq<UiElement>, news: Seq<UiElement>, c: IconConfig)
    ensures
        forest_icons_written(olds, news, c) <==> (news.len() == olds.len() && forall|i: int|
            0 <= i < olds.len() ==> icons_written(#[trigger] olds[i], news[i], c)),
    decreases olds.len(),
{
    if olds.len() > 0 && news.len() == olds.len() {
        let o = olds.drop_last();
        let m = news.drop_last();
        lemma_forest_icons_written_index(o, m, c);
        let last = olds.len() - 1;
        assert(olds.last() == olds[last] && news.last() == news[last]);
        if forest_icons_written(olds, news, c) {
            assert forall|i: int| 0 <= i < olds.len() implies icons_written(
                #[trigger] olds[i],
                news[i],
                c,
            ) by {
                if i < last {
                    assert(o[i] == olds[i] && m[i] == news[i]);
                    assert(icons_written(o[i], m[i], c));
                }
            }
        }
        if forall|i: int| 0 <= i < olds.len() ==> icons_written(#[trigger] olds[i], news[i], c) {
            assert forall|i: int| 0 <= i < o.len() implies icons_written(#[trigger] o[i], m[i], c) by {
                assert(o[i] == olds[i] && m[i] == news[i]);
                assert(icons_written(olds[i], news[i], c));
            }
            assert(icons_written(olds[last], news[last], c));
        }
    }
}

/// Replacing, in a tree already related to `old`, the node at a path that leads
/// in `old` to a candidate keeps the relation.
proof fn lemma_icon_step(
    old: UiElement,
    cur: UiElement,
    next: UiElement,
    path: Seq<usize>,
    hit: IconHit,
    c: IconConfig,
)
    requires
        icons_written(old, cur, c),
        node_at(old, path) matches Some(n) && spec_is_icon_candidate(n, c),
        replaced_at(cur, next, path, hit),
    ensures
        icons_written(old, next, c),
    decreases path.len(),
{
    if path.len() == 0 {
        assert(node_at(old, path) == Some(old));
        assert(next.bounds == cur.bounds);
    } else {
        let i = path[0] as int;
        assert(0 <= i < old.children@.len());
        if cur != old && !(spec_is_icon_candidate(old, c) && cur.bounds == old.bounds
            && cur.kind is Icon && cur.children@.len() == 0) {
            lemma_forest_icons_written_index(old.children@, cur.children@, c);
        }
        assert(cur.bounds == old.bounds && cur.kind == old.kind);
        assert(cur.children@.len() == old.children@.len());
        assert forall|j: int| 0 <= j < old.children@.len() implies icons_written(
            #[trigger] old.children@[j],
            cur.children@[j],
            c,
        ) by {
            if cur == old {
                assert(cur.children@[j] == old.children@[j]);
            } else {
                lemma_forest_icons_written_index(old.children@, cur.children@, c);
            }
        }
        lemma_icon_step(
            old.children@[i],
            cur.children@[i],
            next.children@[i],
            path.skip(1),
            hit,
            c,
        );
        assert forall|j: int| 0 <= j < old.children@.len() implies icons_written(
            #[trigger] old.children@[j],
            next.children@[j],
            c,
        ) by {
            if j != i {
                assert(next.children@[j] == cur.children@[j]);
                assert(icons_written(old.children@[j], cur.children@[j], c));
            }
        }
        lemma_forest_icons_written_index(old.children@, next.children@, c);
    }
}

/// Every tree of a trace that writes hits to the candidates listed from its first
/// tree differs from that tree only by candidates turned into icons.
proof fn lemma_trace_icons_written(
    trees: Seq<UiElement>,
    jobs: Seq<IconJob>,
    hits: Seq<Option<IconHit>>,
    n: int,
    c: IconConfig,
    k: int,
)
    requires
        0 <= k <= n <= jobs.len(),
        hits_trace(trees, jobs, hits, n),
        job_views(jobs) == spec_icon_jobs(trees[0], Seq::empty(), c),
    ensures
        icons_written(trees[0], trees[k], c),
    decreases k,
{
    if k > 0 {
        lemma_trace_icons_written(trees, jobs, hits, n, c, k - 1);
        let q = k - 1;
        assert(hit_step(trees[q], trees[q + 1], jobs[q].path@, hits[q]));
        if hits[q] is Some {
            let h = hits[q]->0;
            if node_at(trees[q], jobs[q].path@) is Some {
                lemma_jobs_lead_to_candidates(trees[0], c);
                assert(job_views(jobs)[q] == (jobs[q].path@, jobs[q].bounds));
                assert(spec_icon_jobs(trees[0], Seq::empty(), c)[q].0 == jobs[q].path@);
                lemma_icon_step(trees[0], trees[q], trees[k], jobs[q].path@, h, c);
            }
        }
    }
}

proof fn lemma_written_count_bound(
    trees: Seq<UiElement>,
    jobs: Seq<IconJob>,
    hits: Seq<Option<IconHit>>,
    n: int,
)
    requires
        0 <= n,
    ensures
        0 <= written_count(trees, jobs, hits, n) <= n,
    decreases n,
{
    if n > 0 {
        lemma_written_count_bound(trees, jobs, hits, n - 1);
    }
}

/// Lists the icon candidates of the tree in pre-order and writes the hits back,
/// the `k`-th hit to the `k`-th candidate (as far as both lists go); returns how
/// many icons were written. Only candidates change, each into an icon leaf of
/// its own box.
pub fn write_icon_matches(root: &mut UiElement, config: &IconConfig, hits: Vec<Option<IconHit>>) -> (matched: usize)
    requires
        config.wf(),
    ensures
        icons_written(*old(root), *final(root), *config),
        matched <= spec_icon_jobs(*old(root), Seq::empty(), *config).len(),
        matched <= hits@.len(),
        ({
            let listed = spec_icon_jobs(*old(root), Seq::empty(), *config);
            let n = if listed.len() <= hits@.len() { listed.len() } else { hits@.len() };
            exists|jobs: Seq<IconJob>, trees: Seq<UiElement>|
                #![trigger job_views(jobs), trees.len()]
                job_views(jobs) == listed && hits_trace(trees, jobs, hits@, n as int) && trees[0]
                    == *old(root) && trees[n as int] == *final(root) && matched == written_count(
                    trees,
                    jobs,
                    hits@,
                    n as int,
                )
        }),
{
    let ghost hits0 = hits@;
    let mut jobs: Vec<IconJob> = Vec::new();
    let mut path: Vec<usize> = Vec::new();
    collect_icon_jobs(root, &mut path, config, &mut jobs);
    assert(job_views(jobs@) =~= spec_icon_jobs(*root, Seq::empty(), *config));
    let ghost start = *root;
    let ghost js = jobs@;
    let matched = apply_icon_hits(root, &jobs, hits);
    proof {
        let n = if js.len() <= hits0.len() { js.len() } else { hits0.len() };
        let trees = choose|trees: Seq<UiElement>|
            #![trigger trees.len()]
            hits_trace(trees, js, hits0, n as int) && trees[0] == start && trees[n as int]
                == *root && matched == written_count(trees, js, hits0, n as int);
        lemma_trace_icons_written(trees, js, hits0, n as int, *config, n as int);
        lemma_written_count_bound(trees, js, hits0, n as int);
        assert(job_views(js).len() == js.len());
        assert(job_views(js) == spec_icon_jobs(start, Seq::empty(), *config));
        assert(trees.len() == n + 1);
    }
    matched
}

} // verus!
