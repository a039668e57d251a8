//! Attaching recognized words to the layout tree as text elements.
use vstd::prelude::*;

use crate::sorting::{spec_stable_order, stable_order};
use crate::types::{Bounds, UiElement, UiElementKind, clone_kind};

verus! {

/// A recognized word: its text, box and confidence (bit pattern of an IEEE-754
/// single-precision value).
#[derive(Debug, Clone)]
pub struct OcrWord {
    pub text: String,
    pub bounds: Bounds,
    pub confidence: u32,
}

/// A word box has its right and bottom edges representable as `i32`.
pub open spec fn word_wf(w: OcrWord) -> bool {
    w.bounds.wf()
}

/// Every word box is well formed, and the words span at most `i32::MAX` pixels
/// across and down, so that every union of word boxes is a box.
pub open spec fn words_wf(words: Seq<OcrWord>) -> bool {
    &&& forall|i: int| 0 <= i < words.len() ==> #[trigger] word_wf(words[i])
    &&& forall|i: int, j: int|
        0 <= i < words.len() && 0 <= j < words.len() ==> #[trigger] words[i].bounds.spec_right()
            - #[trigger] words[j].bounds.x <= i32::MAX
    &&& forall|i: int, j: int|
        0 <= i < words.len() && 0 <= j < words.len() ==> #[trigger] words[i].bounds.spec_bottom()
            - #[trigger] words[j].bounds.y <= i32::MAX
}

/// Integer halving that rounds toward zero.
pub open spec fn half(v: int) -> int {
    if v >= 0 { v / 2 } else { -((-v) / 2) }
}

pub open spec fn word_center(b: Bounds) -> (int, int) {
    (b.x + half(b.width as int), b.y + half(b.height as int))
}

/// The point lies in the half-open box.
pub open spec fn point_in_bounds(p: (int, int), b: Bounds) -> bool {
    p.0 >= b.x && p.1 >= b.y && p.0 < b.spec_right() && p.1 < b.spec_bottom()
}

/// Node boxes of a tree in pre-order (node, then its children's trees in order).
pub open spec fn preorder(e: UiElement) -> Seq<Bounds>
    decreases e,
{
    seq![e.bounds] + forest_preorder(e.children@)
}

pub open spec fn forest_preorder(s: Seq<UiElement>) -> Seq<Bounds>
    decreases s,
{
    if s.len() == 0 {
        Seq::empty()
    } else {
        forest_preorder(s.drop_last()) + preorder(s.last())
    }
}

/// Among the first `n` nodes, the one of smallest area that contains `c`; of equal
/// areas, the later one in pre-order.
pub open spec fn best_node_upto(nodes: Seq<Bounds>, c: (int, int), n: int) -> Option<int>
    decreases n,
{
    if n <= 0 {
        None
    } else {
        let b = best_node_upto(nodes, c, n - 1);
        if point_in_bounds(c, nodes[n - 1]) && (b is None || nodes[n - 1].spec_area()
            <= nodes[b->0].spec_area()) {
            Some(n - 1)
        } else {
            b
        }
    }
}

/// Pre-order index of the node a word is assigned to.
pub open spec fn best_node(root: UiElement, w: OcrWord) -> Option<int> {
    best_node_upto(preorder(root), word_center(w.bounds), preorder(root).len() as int)
}

/// Indices among the first `n` words assigned to node `slot`, in word order.
pub open spec fn slot_words(root: UiElement, words: Seq<OcrWord>, slot: int, n: int) -> Seq<usize>
    decreases n,
{
    if n <= 0 {
        Seq::empty()
    } else {
        let rest = slot_words(root, words, slot, n - 1);
        if best_node(root, words[n - 1]) == Some(slot) {
            rest.push((n - 1) as usize)
        } else {
            rest
        }
    }
}

fn collect_preorder(e: &UiElement, out: &mut Vec<Bounds>)
    ensures
        final(out)@ == old(out)@ + preorder(*e),
    decreases e,
{
    out.push(e.bounds);
    let n = e.children.len();
    let mut i: usize = 0;
    while i < n
        invariant
            n == e.children@.len(),
            i <= n,
            out@ == old(out)@ + seq![e.bounds] + forest_preorder(e.children@.take(i as int)),
        decreases n - i,
    {
        let ghost before = out@;
        collect_preorder(&e.children[i], out);
        let ghost t = e.children@.take(i + 1);
        assert(t.drop_last() == e.children@.take(i as int));
        assert(t.last() == e.children@[i as int]);
        assert(forest_preorder(t) == forest_preorder(t.drop_last()) + preorder(t.last()));
        assert(out@ == old(out)@ + seq![e.bounds] + forest_preorder(t));
        i = i + 1;
    }
    assert(e.children@.take(n as int) == e.children@);
    assert(preorder(*e) == seq![e.bounds] + forest_preorder(e.children@));
}

fn half_toward_zero(v: i64) -> (r: i64)
    requires
        -0x1_0000_0000 <= v <= 0x1_0000_0000,
    ensures
        r == half(v as int),
{
    if v >= 0 {
        v / 2
    } else {
        -((-v) / 2)
    }
}

/// The word's center point: its box origin plus half its size, rounded toward 0.
pub fn center_of(b: &Bounds) -> (c: (i64, i64))
    ensures
        c.0 == word_center(*b).0,
        c.1 == word_center(*b).1,
{
    (b.x as i64 + half_toward_zero(b.width as i64), b.y as i64 + half_toward_zero(b.height as i64))
}

/// Whether point `p` lies in the half-open box `b`.
pub fn point_in(p: (i64, i64), b: &Bounds) -> (r: bool)
    ensures
        r == point_in_bounds((p.0 as int, p.1 as int), *b),
{
    let right = b.x as i64 + b.width as i64;
    let bottom = b.y as i64 + b.height as i64;
    p.0 >= b.x as i64 && p.1 >= b.y as i64 && p.0 < right && p.1 < bottom
}

fn best_node_index(nodes: &Vec<Bounds>, c: (i64, i64)) -> (r: Option<usize>)
    ensures
        match r {
            None => best_node_upto(nodes@, (c.0 as int, c.1 as int), nodes@.len() as int) is None,
            Some(i) => best_node_upto(nodes@, (c.0 as int, c.1 as int), nodes@.len() as int)
                == Some(i as int) && i < nodes@.len(),
        },
{
    let ghost cc = (c.0 as int, c.1 as int);
    let mut best: Option<usize> = None;
    let mut best_area: i64 = 0;
    let n = nodes.len();
    let mut i: usize = 0;
    while i < n
        invariant
            n == nodes@.len(),
            i <= n,
            cc == (c.0 as int, c.1 as int),
            match best {
                None => best_node_upto(nodes@, cc, i as int) is None,
                Some(b) => best_node_upto(nodes@, cc, i as int) == Some(b as int) && b < i
                    && best_area == nodes@[b as int].spec_area(),
            },
        decreases n - i,
    {
        let ghost prev = best_node_upto(nodes@, cc, i as int);
        assert(best_node_upto(nodes@, cc, i + 1) == (if point_in_bounds(cc, nodes@[i as int]) && (
        prev is None || nodes@[i as int].spec_area() <= nodes@[prev->0].spec_area()) {
            Some(i as int)
        } else {
            prev
        }));
        let inside = point_in(c, &nodes[i]);

        if inside {
            let area = nodes[i].area();
            match best {
                None => {
                    best = Some(i);
                    best_area = area;
                },
                Some(_) => {
                    if area <= best_area {
                        best = Some(i);
                        best_area = area;
                    }
                },
            }
        }
        i = i + 1;
    }
    best
}

/// For every pre-order node index, the words assigned to it, in word order.
fn assign_words(root: &UiElement, words: &Vec<OcrWord>) -> (slots: Vec<Vec<usize>>)
    requires
        words_wf(words@),
    ensures
        slots@.len() == preorder(*root).len(),
        forall|s: int|
            0 <= s < slots@.len() ==> (#[trigger] slots@[s])@ == slot_words(
                *root,
                words@,
                s,
                words@.len() as int,
            ),
{
    let mut nodes: Vec<Bounds> = Vec::new();
    collect_preorder(root, &mut nodes);
    assert(nodes@ == preorder(*root));
    let m = nodes.len();
    let mut slots: Vec<Vec<usize>> = Vec::new();
    let mut s: usize = 0;
    while s < m
        invariant
            s <= m,
            slots@.len() == s,
            forall|q: int| 0 <= q < s ==> (#[trigger] slots@[q])@.len() == 0,
        decreases m - s,
    {
        slots.push(Vec::new());
        s = s + 1;
    }
    let n = words.len();
    let mut i: usize = 0;
    while i < n
        invariant
            n == words@.len(),
            words_wf(words@),
            nodes@ == preorder(*root),
            m == nodes@.len(),
            i <= n,
            slots@.len() == m,
            forall|q: int|
                0 <= q < m ==> (#[trigger] slots@[q])@ == slot_words(*root, words@, q, i as int),
        decreases n - i,
    {
        assert(word_wf(words@[i as int]));
        let c = center_of(&words[i].bounds);
        let best = best_node_index(&nodes, c);
        if let Some(b) = best {
            let ghost before = slots@;
            slots[b].push(i);
            assert forall|q: int| 0 <= q < m implies (#[trigger] slots@[q])@ == slot_words(
                *root,
                words@,
                q,
                i + 1,
            ) by {
                if q != b {
                    assert(slots@[q] == before[q]);
                }
            }
        }
        i = i + 1;
    }
    slots
}

/// `s` rearranged by `order`.
pub open spec fn permute<A>(s: Seq<A>, order: Seq<usize>) -> Seq<A> {
    Seq::new(order.len(), |k: int| s[order[k] as int])
}

pub open spec fn yx_keys(words: Seq<OcrWord>, ws: Seq<usize>) -> Seq<(i64, i64)> {
    Seq::new(
        ws.len(),
        |k: int| (words[ws[k] as int].bounds.y as i64, words[ws[k] as int].bounds.x as i64),
    )
}

/// Words in reading order: stably sorted by `(y, x)`.
pub open spec fn reading_order(words: Seq<OcrWord>, ws: Seq<usize>) -> Seq<usize> {
    permute(ws, spec_stable_order(yx_keys(words, ws), ws.len() as int))
}

pub open spec fn height_keys(words: Seq<OcrWord>, ws: Seq<usize>) -> Seq<(i64, i64)> {
    Seq::new(ws.len(), |k: int| (words[ws[k] as int].bounds.height as i64, 0i64))
}

/// Median word height (the upper median), 12 for no words.
pub open spec fn median_height(words: Seq<OcrWord>, ws: Seq<usize>) -> int {
    if ws.len() == 0 {
        12
    } else {
        let o = spec_stable_order(height_keys(words, ws), ws.len() as int);
        words[ws[o[(ws.len() / 2) as int] as int] as int].bounds.height as int
    }
}

/// Words whose tops differ by at most this are on one line.
pub open spec fn line_threshold(words: Seq<OcrWord>, sorted: Seq<usize>) -> int {
    let t = half(median_height(words, sorted));
    if t >= 4 { t } else { 4 }
}

pub open spec fn abs_int(v: int) -> int {
    if v >= 0 { v } else { -v }
}

/// Greedy line grouping of the first `n` words of `sorted`: a word joins the last
/// line when its top is within `thr` of that line's first word, else starts a line.
pub open spec fn group_lines(words: Seq<OcrWord>, sorted: Seq<usize>, thr: int, n: int) -> Seq<Seq<usize>>
    decreases n,
{
    if n <= 0 {
        Seq::empty()
    } else {
        let lines = group_lines(words, sorted, thr, n - 1);
        let w = sorted[n - 1];
        if lines.len() > 0 && abs_int(words[w as int].bounds.y - words[lines.last()[0] as int].bounds.y)
            <= thr {
            lines.update(lines.len() - 1, lines.last().push(w))
        } else {
            lines.push(seq![w])
        }
    }
}

pub open spec fn x_keys(words: Seq<OcrWord>, line: Seq<usize>) -> Seq<(i64, i64)> {
    Seq::new(line.len(), |k: int| (words[line[k] as int].bounds.x as i64, 0i64))
}

/// A line's words stably sorted by `x`.
pub open spec fn x_ordered(words: Seq<OcrWord>, line: Seq<usize>) -> Seq<usize> {
    permute(line, spec_stable_order(x_keys(words, line), line.len() as int))
}

pub open spec fn line_min_x(words: Seq<OcrWord>, line: Seq<usize>) -> int
    decreases line.len(),
{
    if line.len() == 0 {
        0
    } else if line.len() == 1 {
        words[line[0] as int].bounds.x as int
    } else {
        crate::types::min_int(line_min_x(words, line.drop_last()), words[line.last() as int].bounds.x as int)
    }
}

pub open spec fn line_min_y(words: Seq<OcrWord>, line: Seq<usize>) -> int
    decreases line.len(),
{
    if line.len() == 0 {
        0
    } else if line.len() == 1 {
        words[line[0] as int].bounds.y as int
    } else {
        crate::types::min_int(line_min_y(words, line.drop_last()), words[line.last() as int].bounds.y as int)
    }
}

pub open spec fn line_max_right(words: Seq<OcrWord>, line: Seq<usize>) -> int
    decreases line.len(),
{
    if line.len() == 0 {
        0
    } else if line.len() == 1 {
        words[line[0] as int].bounds.spec_right()
    } else {
        crate::types::max_int(line_max_right(words, line.drop_last()), words[line.last() as int].bounds.spec_right())
    }
}

pub open spec fn line_max_bottom(words: Seq<OcrWord>, line: Seq<usize>) -> int
    decreases line.len(),
{
    if line.len() == 0 {
        0
    } else if line.len() == 1 {
        words[line[0] as int].bounds.spec_bottom()
    } else {
        crate::types::max_int(line_max_bottom(words, line.drop_last()), words[line.last() as int].bounds.spec_bottom())
    }
}

/// Union box of the words of a line (at least 1×1).
pub open spec fn union_bounds(words: Seq<OcrWord>, line: Seq<usize>) -> Bounds {
    let x = line_min_x(words, line);
    let y = line_min_y(words, line);
    let w = line_max_right(words, line) - x;
    let h = line_max_bottom(words, line) - y;
    Bounds {
        x: x as i32,
        y: y as i32,
        width: (if w >= 1 { w } else { 1 }) as i32,
        height: (if h >= 1 { h } else { 1 }) as i32,
    }
}

/// The texts of a line's words joined by single spaces.
pub open spec fn joined_text(words: Seq<OcrWord>, line: Seq<usize>) -> Seq<char>
    decreases line.len(),
{
    if line.len() == 0 {
        Seq::empty()
    } else if line.len() == 1 {
        words[line[0] as int].text@
    } else {
        joined_text(words, line.drop_last()) + seq![' '] + words[line.last() as int].text@
    }
}

pub open spec fn line_confidences(words: Seq<OcrWord>, line: Seq<usize>) -> Seq<u32> {
    Seq::new(line.len(), |k: int| words[line[k] as int].confidence)
}

pub open spec fn line_key(words: Seq<OcrWord>, line: Seq<usize>) -> (i64, i64) {
    (union_bounds(words, line).y as i64, union_bounds(words, line).x as i64)
}

/// The text lines made of the words `ws` of one node: words in reading order are
/// grouped into lines, each line is ordered by `x`, and the lines are stably
/// sorted by the `(y, x)` of their union boxes.
pub open spec fn text_lines(words: Seq<OcrWord>, ws: Seq<usize>) -> Seq<Seq<usize>> {
    let sorted = reading_order(words, ws);
    let groups = group_lines(words, sorted, line_threshold(words, sorted), sorted.len() as int);
    let lines = Seq::new(groups.len(), |k: int| x_ordered(words, groups[k]));
    let keys = Seq::new(lines.len(), |k: int| line_key(words, lines[k]));
    permute(lines, spec_stable_order(keys, lines.len() as int))
}

pub open spec fn indices_below(ws: Seq<usize>, n: int) -> bool {
    forall|k: int| 0 <= k < ws.len() ==> #[trigger] ws[k] < n
}

fn copy_indices(v: &Vec<usize>) -> (r: Vec<usize>)
    ensures
        r@ == v@,
{
    let mut r: Vec<usize> = Vec::new();
    let mut i: usize = 0;
    while i < v.len()
        invariant
            i <= v@.len(),
            r@ == v@.take(i as int),
        decreases v@.len() - i,
    {
        r.push(v[i]);
        assert(v@.take(i + 1) == v@.take(i as int).push(v@[i as int]));
        i = i + 1;
    }
    assert(v@.take(v@.len() as int) == v@);
    r
}

fn permute_indices(ws: &Vec<usize>, order: &Vec<usize>) -> (r: Vec<usize>)
    requires
        indices_below(order@, ws@.len() as int),
    ensures
        r@ == permute(ws@, order@),
{
    let mut r: Vec<usize> = Vec::new();
    let mut k: usize = 0;
    while k < order.len()
        invariant
            indices_below(order@, ws@.len() as int),
            k <= order@.len(),
            r@ == permute(ws@, order@).take(k as int),
        decreases order@.len() - k,
    {
        assert(order@[k as int] < ws@.len());
        r.push(ws[order[k]]);
        assert(permute(ws@, order@).take(k + 1) == permute(ws@, order@).take(k as int).push(
            ws@[order@[k as int] as int],
        ));
        k = k + 1;
    }
    assert(permute(ws@, order@).take(order@.len() as int) == permute(ws@, order@));
    r
}

fn reading_order_of(words: &Vec<OcrWord>, ws: &Vec<usize>) -> (r: Vec<usize>)
    requires
        indices_below(ws@, words@.len() as int),
    ensures
        r@ == reading_order(words@, ws@),
        indices_below(r@, words@.len() as int),
        r@.len() == ws@.len(),
{
    let mut keys: Vec<(i64, i64)> = Vec::new();
    let mut k: usize = 0;
    while k < ws.len()
        invariant
            indices_below(ws@, words@.len() as int),
            k <= ws@.len(),
            keys@ == yx_keys(words@, ws@).take(k as int),
        decreases ws@.len() - k,
    {
        assert(ws@[k as int] < words@.len());
        let b = words[ws[k]].bounds;
        keys.push((b.y as i64, b.x as i64));
        assert(yx_keys(words@, ws@).take(k + 1) == yx_keys(words@, ws@).take(k as int).push(
            yx_keys(words@, ws@)[k as int],
        ));
        k = k + 1;
    }
    assert(yx_keys(words@, ws@).take(ws@.len() as int) == yx_keys(words@, ws@));
    let order = stable_order(&keys);
    let r = permute_indices(ws, &order);
    assert forall|k: int| 0 <= k < r@.len() implies #[trigger] r@[k] < words@.len() by {
        assert(order@[k] < ws@.len());
    }
    r
}

fn median_height_of(words: &Vec<OcrWord>, ws: &Vec<usize>) -> (h: i32)
    requires
        indices_below(ws@, words@.len() as int),
    ensures
        h == median_height(words@, ws@),
{
    if ws.len() == 0 {
        return 12;
    }
    let mut keys: Vec<(i64, i64)> = Vec::new();
    let mut k: usize = 0;
    while k < ws.len()
        invariant
            indices_below(ws@, words@.len() as int),
            k <= ws@.len(),
            keys@ == height_keys(words@, ws@).take(k as int),
        decreases ws@.len() - k,
    {
        assert(ws@[k as int] < words@.len());
        keys.push((words[ws[k]].bounds.height as i64, 0i64));
        assert(height_keys(words@, ws@).take(k + 1) == height_keys(words@, ws@).take(k as int).push(
            height_keys(words@, ws@)[k as int],
        ));
        k = k + 1;
    }
    assert(height_keys(words@, ws@).take(ws@.len() as int) == height_keys(words@, ws@));
    let order = stable_order(&keys);
    let mid = order[ws.len() / 2];
    words[ws[mid]].bounds.height
}

/// Views of a list of index lists.
pub open spec fn index_views(lines: Seq<Vec<usize>>) -> Seq<Seq<usize>> {
    Seq::new(lines.len(), |k: int| lines[k]@)
}

fn group_into_lines(words: &Vec<OcrWord>, sorted: &Vec<usize>, thr: i64) -> (lines: Vec<Vec<usize>>)
    requires
        indices_below(sorted@, words@.len() as int),
    ensures
        index_views(lines@) == group_lines(words@, sorted@, thr as int, sorted@.len() as int),
        forall|k: int| 0 <= k < lines@.len() ==> (#[trigger] lines@[k])@.len() > 0,
        forall|k: int| 0 <= k < lines@.len() ==> indices_below((#[trigger] lines@[k])@, words@.len() as int),
{
    let mut lines: Vec<Vec<usize>> = Vec::new();
    let n = sorted.len();
    let mut i: usize = 0;
    while i < n
        invariant
            n == sorted@.len(),
            indices_below(sorted@, words@.len() as int),
            i <= n,
            index_views(lines@) == group_lines(words@, sorted@, thr as int, i as int),
            forall|k: int| 0 <= k < lines@.len() ==> (#[trigger] lines@[k])@.len() > 0,
            forall|k: int|
                0 <= k < lines@.len() ==> indices_below((#[trigger] lines@[k])@, words@.len() as int),
        decreases n - i,
    {
        let w = sorted[i];
        assert(sorted@[i as int] < words@.len());
        let ghost before = lines@;
        let ghost prev = group_lines(words@, sorted@, thr as int, i as int);
        let len = lines.len();
        let mut joined = false;
        if len > 0 {
            let first = lines[len - 1][0];
            assert(lines@[len - 1]@[0] < words@.len());
            let dy = words[w].bounds.y as i64 - words[first].bounds.y as i64;
            let ady = if dy >= 0 { dy } else { -dy };
            if ady <= thr {
                lines[len - 1].push(w);
                joined = true;
                assert(prev.last() == before[len - 1]@);
                assert(index_views(lines@) =~= prev.update(prev.len() - 1, prev.last().push(w)));
                assert forall|k: int| 0 <= k < lines@.len() implies indices_below(
                    (#[trigger] lines@[k])@,
                    words@.len() as int,
                ) by {
                    if k != len - 1 {
                        assert(lines@[k] == before[k]);
                    } else {
                        assert(lines@[k]@ == before[k]@.push(w));
                    }
                }
                assert forall|k: int| 0 <= k < lines@.len() implies (#[trigger] lines@[k])@.len()
                    > 0 by {
                    if k != len - 1 {
                        assert(lines@[k] == before[k]);
                    }
                }
            }
        }
        if !joined {
            let mut line: Vec<usize> = Vec::new();
            line.push(w);
            lines.push(line);
            assert(index_views(lines@) =~= prev.push(seq![w]));
        }
        i = i + 1;
    }
    lines
}

fn x_ordered_of(words: &Vec<OcrWord>, line: &Vec<usize>) -> (r: Vec<usize>)
    requires
        indices_below(line@, words@.len() as int),
    ensures
        r@ == x_ordered(words@, line@),
        r@.len() == line@.len(),
        indices_below(r@, words@.len() as int),
{
    let mut keys: Vec<(i64, i64)> = Vec::new();
    let mut k: usize = 0;
    while k < line.len()
        invariant
            indices_below(line@, words@.len() as int),
            k <= line@.len(),
            keys@ == x_keys(words@, line@).take(k as int),
        decreases line@.len() - k,
    {
        assert(line@[k as int] < words@.len());
        keys.push((words[line[k]].bounds.x as i64, 0i64));
        assert(x_keys(words@, line@).take(k + 1) == x_keys(words@, line@).take(k as int).push(
            x_keys(words@, line@)[k as int],
        ));
        k = k + 1;
    }
    assert(x_keys(words@, line@).take(line@.len() as int) == x_keys(words@, line@));
    let order = stable_order(&keys);
    let r = permute_indices(line, &order);
    assert forall|k: int| 0 <= k < r@.len() implies #[trigger] r@[k] < words@.len() by {
        assert(order@[k] < line@.len());
    }
    r
}

fn union_of(words: &Vec<OcrWord>, line: &Vec<usize>) -> (b: Bounds)
    requires
        words_wf(words@),
        indices_below(line@, words@.len() as int),
        line@.len() > 0,
    ensures
        b == union_bounds(words@, line@),
{
    assert(line@[0] < words@.len());
    let b0 = words[line[0]].bounds;
    assert(word_wf(words@[line@[0] as int]));
    let mut x: i64 = b0.x as i64;
    let mut y: i64 = b0.y as i64;
    let mut right: i64 = b0.x as i64 + b0.width as i64;
    let mut bottom: i64 = b0.y as i64 + b0.height as i64;
    // Positions in the line of the words that give each edge.
    let ghost mut ix: int = 0;
    let ghost mut iy: int = 0;
    let ghost mut ir: int = 0;
    let ghost mut ib: int = 0;
    assert(line@.take(1).drop_last().len() == 0);
    let mut k: usize = 1;
    while k < line.len()
        invariant
            words_wf(words@),
            indices_below(line@, words@.len() as int),
            1 <= k <= line@.len(),
            x == line_min_x(words@, line@.take(k as int)),
            y == line_min_y(words@, line@.take(k as int)),
            right == line_max_right(words@, line@.take(k as int)),
            bottom == line_max_bottom(words@, line@.take(k as int)),
            0 <= ix < k && 0 <= iy < k && 0 <= ir < k && 0 <= ib < k,
            x == words@[line@[ix] as int].bounds.x,
            y == words@[line@[iy] as int].bounds.y,
            right == words@[line@[ir] as int].bounds.spec_right(),
            bottom == words@[line@[ib] as int].bounds.spec_bottom(),
        decreases line@.len() - k,
    {
        assert(line@[k as int] < words@.len());
        let b = words[line[k]].bounds;
        assert(word_wf(words@[line@[k as int] as int]));
        let ghost t = line@.take(k + 1);
        assert(t.drop_last() == line@.take(k as int));
        assert(t.last() == line@[k as int]);
        let bx = b.x as i64;
        let by = b.y as i64;
        let br = b.x as i64 + b.width as i64;
        let bb = b.y as i64 + b.height as i64;
        if bx < x {
            x = bx;
            proof {
                ix = k as int;
            }
        }
        if by < y {
            y = by;
            proof {
                iy = k as int;
            }
        }
        if br > right {
            right = br;
            proof {
                ir = k as int;
            }
        }
        if bb > bottom {
            bottom = bb;
            proof {
                ib = k as int;
            }
        }
        k = k + 1;
    }
    assert(line@.take(line@.len() as int) == line@);
    assert(line@[ix] < words@.len() && line@[iy] < words@.len());
    assert(line@[ir] < words@.len() && line@[ib] < words@.len());
    assert(right - x <= i32::MAX) by {
        assert(words@[line@[ir] as int].bounds.spec_right() - words@[line@[ix] as int].bounds.x
            <= i32::MAX);
    }
    assert(bottom - y <= i32::MAX) by {
        assert(words@[line@[ib] as int].bounds.spec_bottom() - words@[line@[iy] as int].bounds.y
            <= i32::MAX);
    }
    let w = right - x;
    let h = bottom - y;
    Bounds::new(x as i32, y as i32, if w >= 1 { w as i32 } else { 1 }, if h >= 1 { h as i32 } else { 1 })
}

fn joined_text_of(words: &Vec<OcrWord>, line: &Vec<usize>) -> (s: String)
    requires
        indices_below(line@, words@.len() as int),
    ensures
        s@ == joined_text(words@, line@),
{
    let mut s = String::new();
    let mut k: usize = 0;
    while k < line.len()
        invariant
            indices_below(line@, words@.len() as int),
            k <= line@.len(),
            s@ == joined_text(words@, line@.take(k as int)),
        decreases line@.len() - k,
    {
        assert(line@[k as int] < words@.len());
        let ghost t = line@.take(k + 1);
        assert(t.drop_last() == line@.take(k as int));
        assert(t.last() == line@[k as int]);
        if k > 0 {
            let sep = " ";
            proof {
                reveal_strlit(" ");
            }
            s.append(sep);
        } else {
            assert(t.len() == 1 && t[0] == line@[0]);
        }
        s.append(words[line[k]].text.as_str());
        k = k + 1;
    }
    assert(line@.take(line@.len() as int) == line@);
    s
}

fn text_lines_of(words: &Vec<OcrWord>, ws: &Vec<usize>) -> (r: Vec<Vec<usize>>)
    requires
        words_wf(words@),
        indices_below(ws@, words@.len() as int),
    ensures
        index_views(r@) == text_lines(words@, ws@),
        forall|k: int| 0 <= k < r@.len() ==> (#[trigger] r@[k])@.len() > 0,
        forall|k: int| 0 <= k < r@.len() ==> indices_below((#[trigger] r@[k])@, words@.len() as int),
{
    let sorted = reading_order_of(words, ws);
    let med = median_height_of(words, &sorted);
    let half_med = half_toward_zero(med as i64);
    let thr: i64 = if half_med >= 4 { half_med } else { 4 };
    let groups = group_into_lines(words, &sorted, thr);
    let ghost g = group_lines(words@, sorted@, line_threshold(words@, sorted@), sorted@.len() as int);
    assert(index_views(groups@) == g);
    let ghost spec_lines = Seq::new(g.len(), |k: int| x_ordered(words@, g[k]));
    let mut lines: Vec<Vec<usize>> = Vec::new();
    let mut keys: Vec<(i64, i64)> = Vec::new();
    let mut k: usize = 0;
    while k < groups.len()
        invariant
            words_wf(words@),
            index_views(groups@) == g,
            forall|j: int| 0 <= j < groups@.len() ==> (#[trigger] groups@[j])@.len() > 0,
            forall|j: int|
                0 <= j < groups@.len() ==> indices_below((#[trigger] groups@[j])@, words@.len() as int),
            spec_lines == Seq::new(g.len(), |k: int| x_ordered(words@, g[k])),
            k <= groups@.len(),
            index_views(lines@) == spec_lines.take(k as int),
            lines@.len() == k,
            keys@ == Seq::new(k as nat, |j: int| line_key(words@, spec_lines[j])),
            forall|j: int| 0 <= j < lines@.len() ==> (#[trigger] lines@[j])@.len() > 0,
            forall|j: int|
                0 <= j < lines@.len() ==> indices_below((#[trigger] lines@[j])@, words@.len() as int),
        decreases groups@.len() - k,
    {
        assert(groups@[k as int]@ == g[k as int]);
        let line = x_ordered_of(words, &groups[k]);
        let b = union_of(words, &line);
        keys.push((b.y as i64, b.x as i64));
        let ghost before = lines@;
        lines.push(line);
        assert forall|j: int| 0 <= j < k + 1 implies #[trigger] index_views(lines@)[j]
            == spec_lines.take(k + 1)[j] by {
            if j < k {
                assert(lines@[j] == before[j]);
                assert(index_views(before)[j] == spec_lines.take(k as int)[j]);
            }
        }
        assert(index_views(lines@) =~= spec_lines.take(k + 1));
        assert(keys@ =~= Seq::new((k + 1) as nat, |j: int| line_key(words@, spec_lines[j])));
        k = k + 1;
    }
    assert(index_views(lines@) =~= spec_lines);
    let order = stable_order(&keys);
    let mut r: Vec<Vec<usize>> = Vec::new();
    let mut k: usize = 0;
    while k < order.len()
        invariant
            index_views(lines@) == spec_lines,
            keys@.len() == lines@.len(),
            crate::sorting::is_stable_order(keys@, order@),
            forall|j: int| 0 <= j < lines@.len() ==> (#[trigger] lines@[j])@.len() > 0,
            forall|j: int|
                0 <= j < lines@.len() ==> indices_below((#[trigger] lines@[j])@, words@.len() as int),
            k <= order@.len(),
            index_views(r@) == permute(spec_lines, order@).take(k as int),
            r@.len() == k,
            forall|j: int| 0 <= j < r@.len() ==> (#[trigger] r@[j])@.len() > 0,
            forall|j: int| 0 <= j < r@.len() ==> indices_below((#[trigger] r@[j])@, words@.len() as int),
        decreases order@.len() - k,
    {
        let idx = order[k];
        assert(idx < lines@.len());
        let copy = copy_indices(&lines[idx]);
        let ghost before = r@;
        r.push(copy);
        assert(lines@[idx as int]@ == spec_lines[idx as int]) by {
            assert(index_views(lines@)[idx as int] == spec_lines[idx as int]);
        }
        assert forall|j: int| 0 <= j < k + 1 implies #[trigger] index_views(r@)[j] == permute(
            spec_lines,
            order@,
        ).take(k + 1)[j] by {
            if j < k {
                assert(r@[j] == before[j]);
                assert(index_views(before)[j] == permute(spec_lines, order@).take(k as int)[j]);
            }
        }
        assert(index_views(r@) =~= permute(spec_lines, order@).take(k + 1));
        k = k + 1;
    }
    assert(permute(spec_lines, order@).take(order@.len() as int) == permute(spec_lines, order@));
    r
}

/// `t` is the text element of line `line`: the union box, no children, the words'
/// texts joined by spaces, and as confidence what `average` returns for the
/// words' confidences in line order.
pub open spec fn is_text_of<F: Fn(Vec<u32>) -> u32>(
    words: Seq<OcrWord>,
    average: F,
    line: Seq<usize>,
    t: UiElement,
) -> bool {
    &&& t.bounds == union_bounds(words, line)
    &&& t.children@.len() == 0
    &&& t.kind matches UiElementKind::Text { content, confidence }
    &&& content@ == joined_text(words, line)
    &&& confidence matches Some(c)
    &&& exists|v: Vec<u32>| v@ == line_confidences(words, line) && call_ensures(average, (v,), c)
}

fn make_text_element<F: Fn(Vec<u32>) -> u32>(words: &Vec<OcrWord>, line: &Vec<usize>, average: &F) -> (t:
    UiElement)
    requires
        words_wf(words@),
        indices_below(line@, words@.len() as int),
        line@.len() > 0,
        forall|v: Vec<u32>| call_requires(*average, (v,)),
    ensures
        is_text_of(words@, *average, line@, t),
{
    let mut confs: Vec<u32> = Vec::new();
    let mut k: usize = 0;
    while k < line.len()
        invariant
            indices_below(line@, words@.len() as int),
            k <= line@.len(),
            confs@ == line_confidences(words@, line@).take(k as int),
        decreases line@.len() - k,
    {
        assert(line@[k as int] < words@.len());
        confs.push(words[line[k]].confidence);
        assert(confs@ =~= line_confidences(words@, line@).take(k + 1));
        k = k + 1;
    }
    assert(confs@ =~= line_confidences(words@, line@));
    let ghost gv = confs;
    let c = average(confs);
    assert(call_ensures(*average, (gv,), c));
    let bounds = union_of(words, line);
    let content = joined_text_of(words, line);
    UiElement::text(bounds, content, Some(c))
}

/// Text lines of the node with pre-order index `slot`.
pub open spec fn slot_lines(root: UiElement, words: Seq<OcrWord>, slot: int) -> Seq<Seq<usize>> {
    text_lines(words, slot_words(root, words, slot, words.len() as int))
}

/// `new` is node `old` (pre-order index `slot` in `root`) with its words attached:
/// same box and kind, its children with their words attached, followed by one
/// text element per text line of the node.
pub open spec fn attached<F: Fn(Vec<u32>) -> u32>(
    root: UiElement,
    words: Seq<OcrWord>,
    average: F,
    old: UiElement,
    new: UiElement,
    slot: int,
) -> bool
    decreases old,
{
    let lines = slot_lines(root, words, slot);
    let k = old.children@.len();
    &&& new.bounds == old.bounds
    &&& new.kind == old.kind
    &&& new.children@.len() == k + lines.len()
    &&& forest_attached(root, words, average, old.children@, new.children@.take(k as int), slot + 1)
    &&& forall|j: int|
        0 <= j < lines.len() ==> is_text_of(words, average, lines[j], #[trigger] new.children@[k + j])
}

pub open spec fn forest_attached<F: Fn(Vec<u32>) -> u32>(
    root: UiElement,
    words: Seq<OcrWord>,
    average: F,
    olds: Seq<UiElement>,
    news: Seq<UiElement>,
    slot: int,
) -> bool
    decreases olds,
{
    if olds.len() == 0 {
        news.len() == 0
    } else {
        &&& news.len() == olds.len()
        &&& forest_attached(root, words, average, olds.drop_last(), news.drop_last(), slot)
        &&& attached(
            root,
            words,
            average,
            olds.last(),
            news.last(),
            slot + forest_preorder(olds.drop_last()).len(),
        )
    }
}


proof fn lemma_slot_words_below(root: UiElement, words: Seq<OcrWord>, slot: int, n: int)
    requires
        n <= words.len(),
    ensures
        indices_below(slot_words(root, words, slot, n), n),
    decreases n,
{
    if n > 0 {
        lemma_slot_words_below(root, words, slot, n - 1);
    }
}

proof fn lemma_forest_preorder_prefix(s: Seq<UiElement>, i: int)
    requires
        0 <= i <= s.len(),
    ensures
        forest_preorder(s.take(i)).len() <= forest_preorder(s).len(),
    decreases s.len(),
{
    if i < s.len() {
        assert(s.drop_last().take(i) == s.take(i));
        lemma_forest_preorder_prefix(s.drop_last(), i);
    } else {
        assert(s.take(i) == s);
    }
}

/// Rebuilds `node` (pre-order index `slot`) with the words of every node attached;
/// returns the new node and the pre-order index after its subtree.
fn rebuild<F: Fn(Vec<u32>) -> u32>(
    node: &UiElement,
    words: &Vec<OcrWord>,
    slots: &Vec<Vec<usize>>,
    slot: usize,
    average: &F,
    Ghost(root): Ghost<UiElement>,
) -> (r: (UiElement, usize))
    requires
        words_wf(words@),
        forall|v: Vec<u32>| call_requires(*average, (v,)),
        forall|s: int|
            0 <= s < slots@.len() ==> (#[trigger] slots@[s])@ == slot_words(
                root,
                words@,
                s,
                words@.len() as int,
            ),
        slot + preorder(*node).len() <= slots@.len(),
    ensures
        attached(root, words@, *average, *node, r.0, slot as int),
        r.1 == slot + preorder(*node).len(),
    decreases node,
{
    let ghost kids = node.children@;
    assert(preorder(*node).len() == 1 + forest_preorder(kids).len());
    let n = node.children.len();
    let total = slots.len();
    let mut children: Vec<UiElement> = Vec::new();
    let mut next: usize = slot + 1;
    let mut i: usize = 0;
    while i < n
        invariant
            n == kids.len(),
            kids == node.children@,
            words_wf(words@),
            forall|v: Vec<u32>| call_requires(*average, (v,)),
            forall|s: int|
                0 <= s < slots@.len() ==> (#[trigger] slots@[s])@ == slot_words(
                    root,
                    words@,
                    s,
                    words@.len() as int,
                ),
            slot + 1 + forest_preorder(kids).len() <= slots@.len(),
            i <= n,
            next == slot + 1 + forest_preorder(kids.take(i as int)).len(),
            children@.len() == i,
            forest_attached(root, words@, *average, kids.take(i as int), children@, slot + 1),
        decreases n - i,
    {
        let ghost t = kids.take(i + 1);
        assert(t.drop_last() == kids.take(i as int));
        assert(t.last() == kids[i as int]);
        assert(forest_preorder(t) == forest_preorder(t.drop_last()) + preorder(t.last()));
        proof {
            lemma_forest_preorder_prefix(kids, i + 1);
        }
        let (c, nx) = rebuild(&node.children[i], words, slots, next, average, Ghost(root));
        let ghost before = children@;
        children.push(c);
        assert(children@.drop_last() == before);
        assert(children@.last() == c);
        next = nx;
        i = i + 1;
    }
    assert(kids.take(n as int) == kids);
    let ghost k = n as int;
    let ghost base = children@;
    assert(slots@[slot as int]@ == slot_words(root, words@, slot as int, words@.len() as int));
    proof {
        lemma_slot_words_below(root, words@, slot as int, words@.len() as int);
    }
    let lines = text_lines_of(words, &slots[slot]);
    let ghost spec_lines = slot_lines(root, words@, slot as int);
    assert(index_views(lines@) == spec_lines);
    let m = lines.len();
    let mut j: usize = 0;
    while j < m
        invariant
            m == lines@.len(),
            index_views(lines@) == spec_lines,
            forall|q: int| 0 <= q < lines@.len() ==> (#[trigger] lines@[q])@.len() > 0,
            forall|q: int|
                0 <= q < lines@.len() ==> indices_below((#[trigger] lines@[q])@, words@.len() as int),
            words_wf(words@),
            forall|v: Vec<u32>| call_requires(*average, (v,)),
            j <= m,
            k == n,
            base.len() == k,
            children@.len() == k + j,
            children@.take(k) == base,
            forall|q: int|
                0 <= q < j ==> is_text_of(words@, *average, spec_lines[q], #[trigger] children@[k + q]),
        decreases m - j,
    {
        assert(lines@[j as int]@ == spec_lines[j as int]) by {
            assert(index_views(lines@)[j as int] == spec_lines[j as int]);
        }
        let t = make_text_element(words, &lines[j], average);
        let ghost before = children@;
        children.push(t);
        assert(children@.take(k) == before.take(k));
        assert forall|q: int| 0 <= q < j + 1 implies is_text_of(
            words@,
            *average,
            spec_lines[q],
            #[trigger] children@[k + q],
        ) by {
            if q < j {
                assert(children@[k + q] == before[k + q]);
            }
        }
        j = j + 1;
    }
    let r = UiElement { bounds: node.bounds, kind: clone_kind(&node.kind), children };
    assert(r.children@.take(k) == base);
    (r, next)
}

/// Attaches recognized words to the layout tree. Each word goes to the node of
/// smallest area whose box holds the word's center (of equal areas, the later in
/// pre-order); a word whose center lies in no node is dropped. The words of a node
/// are grouped into text lines, which are appended to the node's children.
pub fn attach_words<F: Fn(Vec<u32>) -> u32>(root: &mut UiElement, words: &Vec<OcrWord>, average: &F)
    requires
        words_wf(words@),
        forall|v: Vec<u32>| call_requires(*average, (v,)),
    ensures
        attached(*old(root), words@, *average, *old(root), *final(root), 0),
{
    let slots = assign_words(root, words);
    let (r, _) = rebuild(root, words, &slots, 0, average, Ghost(*root));
    *root = r;
}


/// What `best_node_upto` picks among the first `n` nodes.
pub open spec fn is_best_upto(nodes: Seq<Bounds>, c: (int, int), n: int, r: Option<int>) -> bool {
    match r {
        None => forall|j: int| 0 <= j < n ==> !point_in_bounds(c, #[trigger] nodes[j]),
        Some(i) => {
            &&& 0 <= i < n
            &&& point_in_bounds(c, nodes[i])
            &&& forall|j: int|
                0 <= j < n && point_in_bounds(c, #[trigger] nodes[j]) ==> nodes[i].spec_area()
                    <= nodes[j].spec_area() && (j > i ==> nodes[i].spec_area() < nodes[j].spec_area())
        },
    }
}

proof fn lemma_best_upto(nodes: Seq<Bounds>, c: (int, int), n: int)
    requires
        0 <= n <= nodes.len(),
    ensures
        is_best_upto(nodes, c, n, best_node_upto(nodes, c, n)),
    decreases n,
{
    if n > 0 {
        lemma_best_upto(nodes, c, n - 1);
    }
}

/// A word goes to the node of smallest area whose box holds its center; of equal
/// areas, to the last such node in pre-order; and to no node exactly when no box
/// holds its center.
pub proof fn lemma_word_goes_to_smallest_container(root: UiElement, w: OcrWord)
    ensures
        is_best_upto(
            preorder(root),
            word_center(w.bounds),
            preorder(root).len() as int,
            best_node(root, w),
        ),
{
    lemma_best_upto(preorder(root), word_center(w.bounds), preorder(root).len() as int);
}


/// The lines one after the other.
pub open spec fn flatten(ls: Seq<Seq<usize>>) -> Seq<usize>
    decreases ls.len(),
{
    if ls.len() == 0 {
        Seq::empty()
    } else {
        flatten(ls.drop_last()) + ls.last()
    }
}

proof fn lemma_insert_pos_range(keys: Seq<(i64, i64)>, s: Seq<usize>, i: int, from: int)
    requires
        0 <= from,
    ensures
        0 <= crate::sorting::insert_pos(keys, s, i, from) <= s.len(),
    decreases s.len() - from,
{
    if from < s.len() && !crate::sorting::key_before(keys, i, s[from] as int) {
        lemma_insert_pos_range(keys, s, i, from + 1);
    }
}

proof fn lemma_stable_order_shape(keys: Seq<(i64, i64)>, n: int)
    requires
        0 <= n,
        n <= usize::MAX + 1,
    ensures
        spec_stable_order(keys, n).len() == n,
        forall|k: int| 0 <= k < n ==> (#[trigger] spec_stable_order(keys, n)[k]) < n,
    decreases n,
{
    if n > 0 {
        lemma_stable_order_shape(keys, n - 1);
        let prev = spec_stable_order(keys, n - 1);
        lemma_insert_pos_range(keys, prev, n - 1, 0);
        let p = crate::sorting::insert_pos(keys, prev, n - 1, 0);
        let order = spec_stable_order(keys, n);
        assert(order == prev.insert(p, (n - 1) as usize));
        assert forall|k: int| 0 <= k < n implies (#[trigger] order[k]) < n by {
            if k < p {
                assert(order[k] == prev[k]);
            } else if k > p {
                assert(order[k] == prev[k - 1]);
            }
        }
    }
}

/// Reordering by a stable order loses and repeats nothing.
proof fn lemma_stable_order_permutes<A>(keys: Seq<(i64, i64)>, s: Seq<A>, n: int)
    requires
        0 <= n <= s.len(),
        n <= usize::MAX + 1,
    ensures
        permute(s, spec_stable_order(keys, n)).to_multiset() == s.take(n).to_multiset(),
    decreases n,
{
    broadcast use vstd::seq_lib::group_to_multiset_ensures;

    if n == 0 {
        assert(permute(s, spec_stable_order(keys, 0)) =~= Seq::<A>::empty());
        assert(s.take(0) =~= Seq::<A>::empty());
    } else {
        lemma_stable_order_permutes(keys, s, n - 1);
        lemma_stable_order_shape(keys, n - 1);
        let prev = spec_stable_order(keys, n - 1);
        lemma_insert_pos_range(keys, prev, n - 1, 0);
        let p = crate::sorting::insert_pos(keys, prev, n - 1, 0);
        let order = spec_stable_order(keys, n);
        assert(order == prev.insert(p, (n - 1) as usize));
        let a = permute(s, prev);
        assert(permute(s, order) =~= a.insert(p, s[n - 1]));
        assert(s.take(n) =~= s.take(n - 1).push(s[n - 1]));
    }
}

proof fn lemma_flatten_concat(a: Seq<Seq<usize>>, b: Seq<Seq<usize>>)
    ensures
        flatten(a + b) == flatten(a) + flatten(b),
    decreases b.len(),
{
    if b.len() == 0 {
        assert(a + b =~= a);
        assert(flatten(a) + Seq::<usize>::empty() =~= flatten(a));
    } else {
        lemma_flatten_concat(a, b.drop_last());
        assert((a + b).drop_last() =~= a + b.drop_last());
        assert((a + b).last() == b.last());
        assert(flatten(a + b) =~= flatten(a) + flatten(b));
    }
}

proof fn lemma_flatten_insert(a: Seq<Seq<usize>>, p: int, x: Seq<usize>)
    requires
        0 <= p <= a.len(),
    ensures
        flatten(a.insert(p, x)).to_multiset() == flatten(a).to_multiset().add(x.to_multiset()),
{
    broadcast use vstd::seq_lib::lemma_multiset_commutative;
    broadcast use vstd::multiset::group_multiset_axioms;

    let l = a.take(p);
    let r = a.skip(p);
    assert(a =~= l + r);
    assert(a.insert(p, x) =~= l + (seq![x] + r));
    lemma_flatten_concat(l, r);
    lemma_flatten_concat(l, seq![x] + r);
    lemma_flatten_concat(seq![x], r);
    assert(flatten(seq![x]) =~= x) by {
        assert(seq![x].drop_last() =~= Seq::<Seq<usize>>::empty());
        assert(flatten(Seq::<Seq<usize>>::empty()) =~= Seq::<usize>::empty());
        assert(Seq::<usize>::empty() + x =~= x);
    }
    assert(flatten(a.insert(p, x)).to_multiset() =~= flatten(a).to_multiset().add(x.to_multiset()));
}

/// Reordering lines by a stable order loses and repeats no item.
proof fn lemma_stable_order_permutes_lines(keys: Seq<(i64, i64)>, lines: Seq<Seq<usize>>, n: int)
    requires
        0 <= n <= lines.len(),
        n <= usize::MAX + 1,
    ensures
        flatten(permute(lines, spec_stable_order(keys, n))).to_multiset() == flatten(
            lines.take(n),
        ).to_multiset(),
    decreases n,
{
    broadcast use vstd::seq_lib::lemma_multiset_commutative;

    if n == 0 {
        assert(permute(lines, spec_stable_order(keys, 0)) =~= Seq::<Seq<usize>>::empty());
        assert(lines.take(0) =~= Seq::<Seq<usize>>::empty());
    } else {
        lemma_stable_order_permutes_lines(keys, lines, n - 1);
        lemma_stable_order_shape(keys, n - 1);
        let prev = spec_stable_order(keys, n - 1);
        lemma_insert_pos_range(keys, prev, n - 1, 0);
        let p = crate::sorting::insert_pos(keys, prev, n - 1, 0);
        let order = spec_stable_order(keys, n);
        assert(order == prev.insert(p, (n - 1) as usize));
        let a = permute(lines, prev);
        assert(permute(lines, order) =~= a.insert(p, lines[n - 1]));
        lemma_flatten_insert(a, p, lines[n - 1]);
        assert(lines.take(n).drop_last() =~= lines.take(n - 1));
        assert(lines.take(n).last() == lines[n - 1]);
    }
}

/// Grouping into lines keeps the words and their order.
proof fn lemma_group_lines_flatten(words: Seq<OcrWord>, sorted: Seq<usize>, thr: int, n: int)
    requires
        0 <= n <= sorted.len(),
    ensures
        flatten(group_lines(words, sorted, thr, n)) == sorted.take(n),
    decreases n,
{
    if n == 0 {
        assert(sorted.take(0) =~= Seq::<usize>::empty());
    } else {
        lemma_group_lines_flatten(words, sorted, thr, n - 1);
        let lines = group_lines(words, sorted, thr, n - 1);
        let w = sorted[n - 1];
        assert(sorted.take(n) =~= sorted.take(n - 1).push(w));
        if lines.len() > 0 && abs_int(words[w as int].bounds.y - words[lines.last()[0] as int].bounds.y)
            <= thr {
            let next = lines.update(lines.len() - 1, lines.last().push(w));
            assert(next.drop_last() =~= lines.drop_last());
            assert(flatten(next) =~= flatten(lines).push(w));
        } else {
            let next = lines.push(seq![w]);
            assert(next.drop_last() =~= lines);
            assert(flatten(next) =~= flatten(lines).push(w));
        }
    }
}

proof fn lemma_x_ordered_lines(words: Seq<OcrWord>, groups: Seq<Seq<usize>>, n: int)
    requires
        0 <= n <= groups.len(),
        forall|k: int| 0 <= k < groups.len() ==> (#[trigger] groups[k]).len() <= usize::MAX,
    ensures
        flatten(Seq::new(n as nat, |k: int| x_ordered(words, groups[k]))).to_multiset() == flatten(
            groups.take(n),
        ).to_multiset(),
    decreases n,
{
    broadcast use vstd::seq_lib::lemma_multiset_commutative;

    if n == 0 {
        assert(groups.take(0) =~= Seq::<Seq<usize>>::empty());
    } else {
        lemma_x_ordered_lines(words, groups, n - 1);
        let g = groups[n - 1];
        lemma_stable_order_permutes(x_keys(words, g), g, g.len() as int);
        assert(g.take(g.len() as int) =~= g);
        let lines = Seq::new(n as nat, |k: int| x_ordered(words, groups[k]));
        assert(lines.drop_last() =~= Seq::new((n - 1) as nat, |k: int| x_ordered(words, groups[k])));
        assert(groups.take(n).drop_last() =~= groups.take(n - 1));
        assert(groups.take(n).last() == g);
    }
}

proof fn lemma_insert_pos_facts(keys: Seq<(i64, i64)>, s: Seq<usize>, i: int, from: int)
    requires
        0 <= from <= s.len(),
    ensures
        ({
            let p = crate::sorting::insert_pos(keys, s, i, from);
            &&& from <= p <= s.len()
            &&& forall|a: int| from <= a < p ==> !crate::sorting::key_before(keys, i, #[trigger] s[a] as int)
            &&& p < s.len() ==> crate::sorting::key_before(keys, i, s[p] as int)
        }),
    decreases s.len() - from,
{
    if from < s.len() && !crate::sorting::key_before(keys, i, s[from] as int) {
        lemma_insert_pos_facts(keys, s, i, from + 1);
    }
}

/// The stable order lists the indices so that each comes before the next.
proof fn lemma_stable_order_sorted(keys: Seq<(i64, i64)>, n: int)
    requires
        0 <= n,
        n <= usize::MAX + 1,
    ensures
        forall|a: int, b: int|
            0 <= a < b < n ==> crate::sorting::key_before(
                keys,
                #[trigger] spec_stable_order(keys, n)[a] as int,
                #[trigger] spec_stable_order(keys, n)[b] as int,
            ),
    decreases n,
{
    if n > 0 {
        lemma_stable_order_sorted(keys, n - 1);
        lemma_stable_order_shape(keys, n - 1);
        let prev = spec_stable_order(keys, n - 1);
        let i = n - 1;
        lemma_insert_pos_facts(keys, prev, i, 0);
        let p = crate::sorting::insert_pos(keys, prev, i, 0);
        let order = spec_stable_order(keys, n);
        assert(order == prev.insert(p, i as usize));
        assert forall|a: int, b: int| 0 <= a < b < n implies crate::sorting::key_before(
            keys,
            #[trigger] order[a] as int,
            #[trigger] order[b] as int,
        ) by {
            if b < p {
                assert(order[a] == prev[a] && order[b] == prev[b]);
            } else if b == p {
                assert(order[a] == prev[a]);
                assert(!crate::sorting::key_before(keys, i, prev[a] as int));
                assert(prev[a] < i);
            } else if a < p {
                assert(order[a] == prev[a] && order[b] == prev[b - 1]);
            } else if a == p {
                assert(order[b] == prev[b - 1]);
                assert(crate::sorting::key_before(keys, i, prev[p] as int));
                if b - 1 > p {
                    assert(crate::sorting::key_before(keys, prev[p] as int, prev[b - 1] as int));
                }
            } else {
                assert(order[a] == prev[a - 1] && order[b] == prev[b - 1]);
            }
        }
    }
}

/// The text lines of a node come in reading order of their boxes: by the top edge,
/// then, on equal tops, by the left edge.
pub proof fn lemma_text_lines_in_reading_order(words: Seq<OcrWord>, ws: Seq<usize>)
    requires
        ws.len() <= usize::MAX,
    ensures
        forall|a: int, b: int|
            0 <= a < b < text_lines(words, ws).len() ==> {
                let ua = union_bounds(words, #[trigger] text_lines(words, ws)[a]);
                let ub = union_bounds(words, #[trigger] text_lines(words, ws)[b]);
                ua.y < ub.y || (ua.y == ub.y && ua.x <= ub.x)
            },
{
    let sorted = reading_order(words, ws);
    lemma_stable_order_shape(yx_keys(words, ws), ws.len() as int);
    let groups = group_lines(words, sorted, line_threshold(words, sorted), sorted.len() as int);
    lemma_group_lines_len(words, sorted, line_threshold(words, sorted), sorted.len() as int);
    let lines = Seq::new(groups.len(), |k: int| x_ordered(words, groups[k]));
    let keys = Seq::new(lines.len(), |k: int| line_key(words, lines[k]));
    let order = spec_stable_order(keys, lines.len() as int);
    lemma_stable_order_shape(keys, lines.len() as int);
    lemma_stable_order_sorted(keys, lines.len() as int);
    let tl = text_lines(words, ws);
    assert(tl == permute(lines, order));
    assert forall|a: int, b: int| 0 <= a < b < tl.len() implies {
        let ua = union_bounds(words, #[trigger] tl[a]);
        let ub = union_bounds(words, #[trigger] tl[b]);
        ua.y < ub.y || (ua.y == ub.y && ua.x <= ub.x)
    } by {
        assert(crate::sorting::key_before(keys, order[a] as int, order[b] as int));
        assert(tl[a] == lines[order[a] as int] && tl[b] == lines[order[b] as int]);
        assert(keys[order[a] as int] == line_key(words, tl[a]));
        assert(keys[order[b] as int] == line_key(words, tl[b]));
    }
}

/// Within each text line of a node, the words come in order of their left edges.
pub proof fn lemma_text_line_words_by_x(words: Seq<OcrWord>, ws: Seq<usize>, j: int)
    requires
        ws.len() <= usize::MAX,
        0 <= j < text_lines(words, ws).len(),
    ensures
        forall|a: int, b: int|
            0 <= a < b < text_lines(words, ws)[j].len() ==> words[#[trigger] text_lines(
                words,
                ws,
            )[j][a] as int].bounds.x <= words[#[trigger] text_lines(words, ws)[j][b] as int].bounds.x,
{
    let sorted = reading_order(words, ws);
    lemma_stable_order_shape(yx_keys(words, ws), ws.len() as int);
    let groups = group_lines(words, sorted, line_threshold(words, sorted), sorted.len() as int);
    lemma_group_lines_len(words, sorted, line_threshold(words, sorted), sorted.len() as int);
    let lines = Seq::new(groups.len(), |k: int| x_ordered(words, groups[k]));
    let keys = Seq::new(lines.len(), |k: int| line_key(words, lines[k]));
    let order = spec_stable_order(keys, lines.len() as int);
    lemma_stable_order_shape(keys, lines.len() as int);
    let tl = text_lines(words, ws);
    assert(tl == permute(lines, order));
    let g = groups[order[j] as int];
    assert(g.len() <= usize::MAX);
    let xk = x_keys(words, g);
    let so = spec_stable_order(xk, g.len() as int);
    lemma_stable_order_shape(xk, g.len() as int);
    lemma_stable_order_sorted(xk, g.len() as int);
    let line = tl[j];
    assert(line == permute(g, so));
    assert forall|a: int, b: int| 0 <= a < b < line.len() implies words[#[trigger] line[a] as int].bounds.x
        <= words[#[trigger] line[b] as int].bounds.x by {
        assert(crate::sorting::key_before(xk, so[a] as int, so[b] as int));
        assert(line[a] == g[so[a] as int] && line[b] == g[so[b] as int]);
    }
}

/// No word is lost or repeated in the text lines of a node: together they hold
/// exactly the node's words.
pub proof fn lemma_text_lines_partition(words: Seq<OcrWord>, ws: Seq<usize>)
    requires
        ws.len() <= usize::MAX,
    ensures
        flatten(text_lines(words, ws)).to_multiset() == ws.to_multiset(),
{
    let sorted = reading_order(words, ws);
    lemma_stable_order_permutes(yx_keys(words, ws), ws, ws.len() as int);
    assert(ws.take(ws.len() as int) =~= ws);
    lemma_stable_order_shape(yx_keys(words, ws), ws.len() as int);
    let groups = group_lines(words, sorted, line_threshold(words, sorted), sorted.len() as int);
    lemma_group_lines_flatten(words, sorted, line_threshold(words, sorted), sorted.len() as int);
    assert(sorted.take(sorted.len() as int) =~= sorted);
    lemma_group_lines_len(words, sorted, line_threshold(words, sorted), sorted.len() as int);
    let lines = Seq::new(groups.len(), |k: int| x_ordered(words, groups[k]));
    lemma_x_ordered_lines(words, groups, groups.len() as int);
    assert(groups.take(groups.len() as int) =~= groups);
    let keys = Seq::new(lines.len(), |k: int| line_key(words, lines[k]));
    lemma_stable_order_permutes_lines(keys, lines, lines.len() as int);
    assert(lines.take(lines.len() as int) =~= lines);
}

proof fn lemma_group_lines_len(words: Seq<OcrWord>, sorted: Seq<usize>, thr: int, n: int)
    requires
        0 <= n <= sorted.len(),
        sorted.len() <= usize::MAX,
    ensures
        group_lines(words, sorted, thr, n).len() <= n,
        forall|k: int|
            0 <= k < group_lines(words, sorted, thr, n).len() ==> (#[trigger] group_lines(
                words,
                sorted,
                thr,
                n,
            )[k]).len() <= n,
    decreases n,
{
    if n > 0 {
        lemma_group_lines_len(words, sorted, thr, n - 1);
    }
}

/// Word `i` is among the words of node `slot` exactly when it is one of the first
/// `n` words and is assigned to that node.
pub proof fn lemma_slot_words_exact(root: UiElement, words: Seq<OcrWord>, slot: int, n: int, i: int)
    requires
        0 <= n <= words.len(),
        n <= usize::MAX + 1,
        0 <= i <= usize::MAX,
    ensures
        slot_words(root, words, slot, n).contains(i as usize) <==> (i < n && best_node(
            root,
            words[i],
        ) == Some(slot)),
    decreases n,
{
    if n > 0 {
        lemma_slot_words_exact(root, words, slot, n - 1, i);
        lemma_slot_words_below(root, words, slot, n - 1);
        let rest = slot_words(root, words, slot, n - 1);
        if i == n - 1 && rest.contains(i as usize) {
            let k = choose|k: int| 0 <= k < rest.len() && rest[k] == i as usize;
            assert(rest[k] < n - 1);
        }
        if best_node(root, words[n - 1]) == Some(slot) {
            let r = rest.push((n - 1) as usize);
            if i == n - 1 {
                assert(r[rest.len() as int] == (n - 1) as usize);
            } else if r.contains(i as usize) {
                let k = choose|k: int| 0 <= k < r.len() && r[k] == i as usize;
                if k < rest.len() {
                    assert(rest[k] == i as usize);
                }
            } else if rest.contains(i as usize) {
                let k = choose|k: int| 0 <= k < rest.len() && rest[k] == i as usize;
                assert(r[k] == i as usize);
            }
        }
    }
}

} // verus!
