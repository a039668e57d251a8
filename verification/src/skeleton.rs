//! The wireframe page: an HTML rendering of the layout tree, one absolutely
//! positioned box per node, colored by depth.
use vstd::prelude::*;

use crate::types::{ExtractResult, UiElement, UiElementKind};

verus! {

/// Decimal digits of a non-negative number.
pub open spec fn digits(n: nat) -> Seq<char>
    decreases n,
{
    if n < 10 {
        seq![digit_char(n)]
    } else {
        digits(n / 10) + seq![digit_char(n % 10)]
    }
}

pub open spec fn digit_char(d: nat) -> char {
    if d == 0 {
        '0'
    } else if d == 1 {
        '1'
    } else if d == 2 {
        '2'
    } else if d == 3 {
        '3'
    } else if d == 4 {
        '4'
    } else if d == 5 {
        '5'
    } else if d == 6 {
        '6'
    } else if d == 7 {
        '7'
    } else if d == 8 {
        '8'
    } else {
        '9'
    }
}

/// A number written in decimal, with a leading `-` when negative.
pub open spec fn decimal(v: int) -> Seq<char> {
    if v < 0 {
        seq!['-'] + digits((-v) as nat)
    } else {
        digits(v as nat)
    }
}

fn digit_str(d: u64) -> (s: &'static str)
    requires
        d < 10,
    ensures
        s@ == seq![digit_char(d as nat)],
{
    proof {
        reveal_strlit("0");
        reveal_strlit("1");
        reveal_strlit("2");
        reveal_strlit("3");
        reveal_strlit("4");
        reveal_strlit("5");
        reveal_strlit("6");
        reveal_strlit("7");
        reveal_strlit("8");
        reveal_strlit("9");
    }
    if d == 0 {
        "0"
    } else if d == 1 {
        "1"
    } else if d == 2 {
        "2"
    } else if d == 3 {
        "3"
    } else if d == 4 {
        "4"
    } else if d == 5 {
        "5"
    } else if d == 6 {
        "6"
    } else if d == 7 {
        "7"
    } else if d == 8 {
        "8"
    } else {
        "9"
    }
}

fn push_digits(out: &mut String, n: u64)
    ensures
        final(out)@ == old(out)@ + digits(n as nat),
    decreases n,
{
    if n < 10 {
        out.append(digit_str(n));
    } else {
        push_digits(out, n / 10);
        out.append(digit_str(n % 10));
    }
}

/// Appends `v` in decimal.
pub fn push_decimal(out: &mut String, v: i64)
    ensures
        final(out)@ == old(out)@ + decimal(v as int),
{
    if v < 0 {
        let minus = "-";
        proof {
            reveal_strlit("-");
        }
        out.append(minus);
        let m: u64 = if v == i64::MIN { 0x8000_0000_0000_0000u64 } else { (-v) as u64 };
        push_digits(out, m);
        assert(out@ == old(out)@ + decimal(v as int));
    } else {
        push_digits(out, v as u64);
    }
}

/// A character as it stands in HTML text and attribute values.
pub open spec fn escape_char(c: char) -> Seq<char> {
    if c == '&' {
        seq!['&', 'a', 'm', 'p', ';']
    } else if c == '<' {
        seq!['&', 'l', 't', ';']
    } else if c == '>' {
        seq!['&', 'g', 't', ';']
    } else if c == '"' {
        seq!['&', 'q', 'u', 'o', 't', ';']
    } else if c == '\'' {
        seq!['&', '#', '3', '9', ';']
    } else {
        seq![c]
    }
}

/// The first `n` characters of `s`, escaped for HTML.
pub open spec fn escaped(s: Seq<char>, n: int) -> Seq<char>
    decreases n,
{
    if n <= 0 {
        Seq::empty()
    } else {
        escaped(s, n - 1) + escape_char(s[n - 1])
    }
}

pub open spec fn spec_html_escape(s: Seq<char>) -> Seq<char> {
    escaped(s, s.len() as int)
}

/// `text` with `&`, `<`, `>`, `"` and `'` written as character references.
pub fn html_escape(text: &str) -> (r: String)
    ensures
        r@ == spec_html_escape(text@),
{
    let n = text.unicode_len();
    let mut out = String::new();
    let mut i: usize = 0;
    while i < n
        invariant
            n == text@.len(),
            i <= n,
            out@ == escaped(text@, i as int),
        decreases n - i,
    {
        let c = text.get_char(i);
        proof {
            reveal_strlit("&amp;");
            reveal_strlit("&lt;");
            reveal_strlit("&gt;");
            reveal_strlit("&quot;");
            reveal_strlit("&#39;");
        }
        if c == '&' {
            out.append("&amp;");
        } else if c == '<' {
            out.append("&lt;");
        } else if c == '>' {
            out.append("&gt;");
        } else if c == '"' {
            out.append("&quot;");
        } else if c == '\'' {
            out.append("&#39;");
        } else {
            out.append(text.substring_char(i, i + 1));
            assert(text@.subrange(i as int, i + 1) =~= seq![c]);
        }
        i = i + 1;
    }
    out
}

/// The border color of depth `depth` (from 1): eight colors in turn.
pub open spec fn spec_depth_color(depth: int) -> Seq<char> {
    let k = (depth - 1) % 8;
    if k == 0 {
        "#e63946"@
    } else if k == 1 {
        "#457b9d"@
    } else if k == 2 {
        "#2a9d8f"@
    } else if k == 3 {
        "#e9c46a"@
    } else if k == 4 {
        "#9b5de5"@
    } else if k == 5 {
        "#f72585"@
    } else if k == 6 {
        "#fb8500"@
    } else {
        "#06d6a0"@
    }
}

/// The border color of nodes at depth `depth` (the root's children are at 1).
pub fn depth_color(depth: usize) -> (c: &'static str)
    requires
        depth >= 1,
    ensures
        c@ == spec_depth_color(depth as int),
{
    let k = (depth - 1) % 8;
    if k == 0 {
        "#e63946"
    } else if k == 1 {
        "#457b9d"
    } else if k == 2 {
        "#2a9d8f"
    } else if k == 3 {
        "#e9c46a"
    } else if k == 4 {
        "#9b5de5"
    } else if k == 5 {
        "#f72585"
    } else if k == 6 {
        "#fb8500"
    } else {
        "#06d6a0"
    }
}

/// Two thirds of the box height (rounded toward zero), clamped to 8..=16.
pub open spec fn spec_text_font_size(height: int) -> int {
    let q = if height >= 0 { (2 * height) / 3 } else { -((-2 * height) / 3) };
    if q < 8 { 8 } else if q > 16 { 16 } else { q }
}

/// Font size in pixels for a text box of height `height`.
pub fn text_font_size(height: i32) -> (r: i32)
    requires
        i32::MIN <= 2 * height <= i32::MAX,
    ensures
        r == spec_text_font_size(height as int),
{
    let q = height * 2 / 3;
    if q < 8 {
        8
    } else if q > 16 {
        16
    } else {
        q
    }
}


pub const NODE_OPEN: &'static str = r#"      <div class="node "#;

pub const NODE_LEFT: &'static str = r#"" style="left:"#;

pub const NODE_TOP: &'static str = "px;top:";

pub const NODE_WIDTH: &'static str = "px;width:";

pub const NODE_HEIGHT: &'static str = "px;height:";

pub const NODE_BORDER: &'static str = "px;border-color:";

pub const NODE_QUOTE: &'static str = r#"""#;

pub const NODE_BADGE: &'static str = r#"><span class="badge">"#;

pub const SPAN_CLOSE: &'static str = "</span>";

pub const NODE_CLOSE: &'static str = "</div>\n";

pub const TITLE_OPEN: &'static str = r#" title=""#;

pub const CONF_SEP: &'static str = " · ";

pub const PERCENT: &'static str = "%";

pub const INNER_OPEN: &'static str = r#"<span class="text-content" style="--fs:"#;

pub const INNER_MID: &'static str = r#"px">"#;

pub const KIND_CONTAINER: &'static str = "kind-container";

pub const KIND_TEXT: &'static str = "kind-text";

pub const KIND_ICON: &'static str = "kind-icon";

pub const BADGE_LEVEL: &'static str = "L";

pub const BADGE_CONTAINER: &'static str = " · container";

pub const BADGE_TEXT: &'static str = " · text";

pub const BADGE_ICON: &'static str = " · icon";

/// The badge of a node: its depth and kind.
pub open spec fn badge(depth: int, kind_word: Seq<char>) -> Seq<char> {
    BADGE_LEVEL@ + decimal(depth) + kind_word
}

/// The title attribute and inner text of a text or icon node: the escaped text,
/// then, with a confidence, " · ", its label and "%".
pub open spec fn labelled_parts(text: Seq<char>, has_conf: bool, label: Seq<char>, height: int) -> (
    Seq<char>,
    Seq<char>,
) {
    let conf = if has_conf { CONF_SEP@ + label + PERCENT@ } else { Seq::empty() };
    (
        TITLE_OPEN@ + spec_html_escape(text) + conf + NODE_QUOTE@,
        INNER_OPEN@ + decimal(spec_text_font_size(height)) + INNER_MID@ + spec_html_escape(text)
            + SPAN_CLOSE@,
    )
}

pub open spec fn kind_class(k: UiElementKind) -> Seq<char> {
    match k {
        UiElementKind::Root => Seq::empty(),
        UiElementKind::Container => KIND_CONTAINER@,
        UiElementKind::Text { .. } => KIND_TEXT@,
        UiElementKind::Icon { .. } => KIND_ICON@,
    }
}

pub open spec fn kind_word(k: UiElementKind) -> Seq<char> {
    match k {
        UiElementKind::Root => Seq::empty(),
        UiElementKind::Container => BADGE_CONTAINER@,
        UiElementKind::Text { .. } => BADGE_TEXT@,
        UiElementKind::Icon { .. } => BADGE_ICON@,
    }
}

/// The title attribute and the inner markup of a node.
pub open spec fn node_parts(e: UiElement, label: Seq<char>) -> (Seq<char>, Seq<char>) {
    match e.kind {
        UiElementKind::Text { content, confidence } => labelled_parts(
            content@,
            confidence is Some,
            label,
            e.bounds.height as int,
        ),
        UiElementKind::Icon { name, confidence } => labelled_parts(
            name@,
            confidence is Some,
            label,
            e.bounds.height as int,
        ),
        _ => (Seq::empty(), Seq::empty()),
    }
}

/// The markup of one node at depth `depth`; `label` is the formatted confidence of
/// a text or icon node that has one. A root kind draws nothing.
pub open spec fn node_html(e: UiElement, depth: int, label: Seq<char>) -> Seq<char> {
    let b = e.bounds;
    if e.kind is Root {
        Seq::empty()
    } else {
        NODE_OPEN@ + kind_class(e.kind) + NODE_LEFT@ + decimal(b.x as int) + NODE_TOP@ + decimal(
            b.y as int,
        ) + NODE_WIDTH@ + decimal(b.width as int) + NODE_HEIGHT@ + decimal(b.height as int)
            + NODE_BORDER@ + spec_depth_color(depth) + NODE_QUOTE@ + node_parts(e, label).0
            + NODE_BADGE@ + spec_html_escape(badge(depth, kind_word(e.kind))) + SPAN_CLOSE@
            + node_parts(e, label).1 + NODE_CLOSE@
    }
}

fn push_labelled(
    title_attr: &mut String,
    inner: &mut String,
    text: &String,
    confidence: Option<u32>,
    label: &str,
    height: i32,
)
    requires
        old(title_attr)@ == Seq::<char>::empty(),
        old(inner)@ == Seq::<char>::empty(),
        i32::MIN <= 2 * height <= i32::MAX,
    ensures
        final(title_attr)@ == labelled_parts(text@, confidence is Some, label@, height as int).0,
        final(inner)@ == labelled_parts(text@, confidence is Some, label@, height as int).1,
{
    let esc = html_escape(text.as_str());
    title_attr.append(TITLE_OPEN);
    title_attr.append(esc.as_str());
    if confidence.is_some() {
        title_attr.append(CONF_SEP);
        title_attr.append(label);
        title_attr.append(PERCENT);
    }
    title_attr.append(NODE_QUOTE);
    inner.append(INNER_OPEN);
    push_decimal(inner, text_font_size(height) as i64);
    inner.append(INNER_MID);
    inner.append(esc.as_str());
    inner.append(SPAN_CLOSE);
}

/// Appends the markup of one node (see `node_html`).
pub fn append_node(out: &mut String, element: &UiElement, depth: usize, label: &str)
    requires
        depth >= 1,
        depth <= i64::MAX,
        i32::MIN <= 2 * element.bounds.height <= i32::MAX,
    ensures
        final(out)@ == old(out)@ + node_html(*element, depth as int, label@),
{
    let b = &element.bounds;
    let mut title_attr = String::new();
    let mut inner = String::new();
    let (kc, kw) = match &element.kind {
        UiElementKind::Root => {
            assert(node_html(*element, depth as int, label@) =~= Seq::<char>::empty());
            return;
        },
        UiElementKind::Container => (KIND_CONTAINER, BADGE_CONTAINER),
        UiElementKind::Text { content, confidence } => {
            push_labelled(&mut title_attr, &mut inner, content, *confidence, label, b.height);
            (KIND_TEXT, BADGE_TEXT)
        },
        UiElementKind::Icon { name, confidence } => {
            push_labelled(&mut title_attr, &mut inner, name, *confidence, label, b.height);
            (KIND_ICON, BADGE_ICON)
        },
    };
    assert(kc@ == kind_class(element.kind));
    assert(kw@ == kind_word(element.kind));
    assert(title_attr@ == node_parts(*element, label@).0);
    assert(inner@ == node_parts(*element, label@).1);
    let mut badge_text = String::from_str(BADGE_LEVEL);
    push_decimal(&mut badge_text, depth as i64);
    badge_text.append(kw);
    let badge_html = html_escape(badge_text.as_str());
    let mut s = String::from_str(NODE_OPEN);
    s.append(kc);
    s.append(NODE_LEFT);
    push_decimal(&mut s, b.x as i64);
    s.append(NODE_TOP);
    push_decimal(&mut s, b.y as i64);
    s.append(NODE_WIDTH);
    push_decimal(&mut s, b.width as i64);
    s.append(NODE_HEIGHT);
    push_decimal(&mut s, b.height as i64);
    s.append(NODE_BORDER);
    s.append(depth_color(depth));
    s.append(NODE_QUOTE);
    s.append(title_attr.as_str());
    s.append(NODE_BADGE);
    s.append(badge_html.as_str());
    s.append(SPAN_CLOSE);
    s.append(inner.as_str());
    s.append(NODE_CLOSE);
    out.append(s.as_str());
}


/// A node draws a confidence label: a text or icon node below the root that has a
/// confidence.
pub open spec fn has_conf_slot(e: UiElement, depth: int) -> bool {
    depth > 0 && match e.kind {
        UiElementKind::Text { confidence, .. } => confidence is Some,
        UiElementKind::Icon { confidence, .. } => confidence is Some,
        _ => false,
    }
}

/// What a label is made from: the confidence bits, and whether the node is an icon
/// (whose confidence is a fraction, shown times 100).
pub open spec fn conf_request(e: UiElement) -> (u32, bool) {
    match e.kind {
        UiElementKind::Text { confidence, .. } => (confidence->0, false),
        UiElementKind::Icon { confidence, .. } => (confidence->0, true),
        _ => (0, false),
    }
}

/// The labels a tree needs, in pre-order.
pub open spec fn tree_requests(e: UiElement, depth: int) -> Seq<(u32, bool)>
    decreases e,
{
    (if has_conf_slot(e, depth) {
        seq![conf_request(e)]
    } else {
        Seq::empty()
    }) + forest_requests(e.children@, depth + 1)
}

pub open spec fn forest_requests(s: Seq<UiElement>, depth: int) -> Seq<(u32, bool)>
    decreases s,
{
    if s.len() == 0 {
        Seq::empty()
    } else {
        forest_requests(s.drop_last(), depth) + tree_requests(s.last(), depth)
    }
}

pub open spec fn label_at(labels: Seq<Seq<char>>, pos: int) -> Seq<char> {
    if 0 <= pos < labels.len() {
        labels[pos]
    } else {
        Seq::empty()
    }
}

/// The markup of a tree: each node below the root in pre-order, the `k`-th label
/// going to the `k`-th node that draws one (counting from `pos`).
pub open spec fn render_tree(e: UiElement, depth: int, labels: Seq<Seq<char>>, pos: int) -> Seq<char>
    decreases e,
{
    let own = if depth > 0 {
        node_html(e, depth, label_at(labels, pos))
    } else {
        Seq::empty()
    };
    let next = pos + if has_conf_slot(e, depth) { 1int } else { 0int };
    own + render_forest(e.children@, depth + 1, labels, next)
}

pub open spec fn render_forest(s: Seq<UiElement>, depth: int, labels: Seq<Seq<char>>, pos: int) -> Seq<char>
    decreases s,
{
    if s.len() == 0 {
        Seq::empty()
    } else {
        render_forest(s.drop_last(), depth, labels, pos) + render_tree(
            s.last(),
            depth,
            labels,
            pos + forest_requests(s.drop_last(), depth).len(),
        )
    }
}

/// Number of levels of a tree.
pub open spec fn tree_height(e: UiElement) -> nat
    decreases e,
{
    1 + forest_height(e.children@)
}

pub open spec fn forest_height(s: Seq<UiElement>) -> nat
    decreases s,
{
    if s.len() == 0 {
        0
    } else {
        let a = forest_height(s.drop_last());
        let b = tree_height(s.last());
        if a >= b { a } else { b }
    }
}

/// Twice every box height is an `i32`.
pub open spec fn heights_ok(e: UiElement) -> bool
    decreases e,
{
    i32::MIN <= 2 * e.bounds.height <= i32::MAX && forest_heights_ok(e.children@)
}

pub open spec fn forest_heights_ok(s: Seq<UiElement>) -> bool
    decreases s,
{
    s.len() == 0 || (forest_heights_ok(s.drop_last()) && heights_ok(s.last()))
}

proof fn lemma_forest_prefix(s: Seq<UiElement>, depth: int, i: int)
    requires
        0 <= i < s.len(),
    ensures
        forest_requests(s.take(i + 1), depth).len() <= forest_requests(s, depth).len(),
        tree_height(s[i]) <= forest_height(s),
        forest_heights_ok(s) ==> heights_ok(s[i]),
    decreases s.len(),
{
    if i + 1 < s.len() {
        assert(s.drop_last().take(i + 1) == s.take(i + 1));
        assert(s.drop_last()[i] == s[i]);
        lemma_forest_prefix(s.drop_last(), depth, i);
    } else {
        assert(s.take(i + 1) == s);
        assert(s.last() == s[i]);
    }
}

fn push_labels(out: &mut Vec<(u32, bool)>, e: &UiElement, depth: usize)
    requires
        depth + tree_height(*e) <= usize::MAX,
    ensures
        final(out)@ == old(out)@ + tree_requests(*e, depth as int),
    decreases e,
{
    match &e.kind {
        UiElementKind::Text { confidence: Some(c), .. } => {
            if depth > 0 {
                out.push((*c, false));
            }
        },
        UiElementKind::Icon { confidence: Some(c), .. } => {
            if depth > 0 {
                out.push((*c, true));
            }
        },
        _ => {},
    }
    let ghost mid = out@;
    assert(mid == old(out)@ + (if has_conf_slot(*e, depth as int) {
        seq![conf_request(*e)]
    } else {
        Seq::empty()
    }));
    let n = e.children.len();
    let mut i: usize = 0;
    while i < n
        invariant
            n == e.children@.len(),
            i <= n,
            depth + 1 + forest_height(e.children@) <= usize::MAX,
            out@ == mid + forest_requests(e.children@.take(i as int), depth + 1),
        decreases n - i,
    {
        proof {
            lemma_forest_prefix(e.children@, depth + 1, i as int);
        }
        let ghost t = e.children@.take(i + 1);
        assert(t.drop_last() == e.children@.take(i as int));
        assert(t.last() == e.children@[i as int]);
        push_labels(out, &e.children[i], depth + 1);
        assert(out@ =~= mid + forest_requests(t, depth + 1));
        i = i + 1;
    }
    assert(e.children@.take(n as int) == e.children@);
    assert(out@ =~= old(out)@ + tree_requests(*e, depth as int));
}

/// The confidences that the page shows, in the order its labels are taken: for
/// each text or icon node below the root that has one, its bits and whether it is
/// an icon.
pub fn confidence_requests(root: &UiElement) -> (r: Vec<(u32, bool)>)
    requires
        tree_height(*root) <= usize::MAX,
    ensures
        r@ == tree_requests(*root, 0),
{
    let mut r: Vec<(u32, bool)> = Vec::new();
    push_labels(&mut r, root, 0);
    assert(r@ =~= tree_requests(*root, 0));
    r
}

fn label_str(labels: &Vec<String>, pos: usize) -> (s: &str)
    ensures
        s@ == label_at(Seq::new(labels@.len(), |k: int| labels@[k]@), pos as int),
{
    if pos < labels.len() {
        labels[pos].as_str()
    } else {
        let empty = "";
        proof {
            reveal_strlit("");
        }
        empty
    }
}

pub open spec fn label_views(labels: Seq<String>) -> Seq<Seq<char>> {
    Seq::new(labels.len(), |k: int| labels[k]@)
}

/// Appends the markup of `element`'s tree (see `render_tree`); returns the label
/// position after it.
fn render_element(out: &mut String, element: &UiElement, depth: usize, labels: &Vec<String>, pos: usize) -> (next: usize)
    requires
        depth + tree_height(*element) <= i64::MAX,
        depth + tree_height(*element) <= usize::MAX,
        pos + tree_requests(*element, depth as int).len() <= usize::MAX,
        heights_ok(*element),
    ensures
        final(out)@ == old(out)@ + render_tree(*element, depth as int, label_views(labels@), pos as int),
        next == pos + tree_requests(*element, depth as int).len(),
    decreases element,
{
    let ghost lv = label_views(labels@);
    if depth > 0 {
        append_node(out, element, depth, label_str(labels, pos));
    }
    let slot = match &element.kind {
        UiElementKind::Text { confidence: Some(_), .. } => depth > 0,
        UiElementKind::Icon { confidence: Some(_), .. } => depth > 0,
        _ => false,
    };
    let mut next = if slot { pos + 1 } else { pos };
    assert(next == pos + if has_conf_slot(*element, depth as int) { 1int } else { 0int });
    let ghost start = next;
    let ghost mid = out@;
    assert(mid == old(out)@ + (if depth > 0 {
        node_html(*element, depth as int, label_at(lv, pos as int))
    } else {
        Seq::empty()
    }));
    let n = element.children.len();
    let mut i: usize = 0;
    while i < n
        invariant
            n == element.children@.len(),
            i <= n,
            lv == label_views(labels@),
            depth + 1 + forest_height(element.children@) <= i64::MAX,
            depth + 1 + forest_height(element.children@) <= usize::MAX,
            start + forest_requests(element.children@, depth + 1).len() <= usize::MAX,
            forest_heights_ok(element.children@),
            next == start + forest_requests(element.children@.take(i as int), depth + 1).len(),
            out@ == mid + render_forest(element.children@.take(i as int), depth + 1, lv, start as int),
        decreases n - i,
    {
        proof {
            lemma_forest_prefix(element.children@, depth + 1, i as int);
        }
        let ghost t = element.children@.take(i + 1);
        assert(t.drop_last() == element.children@.take(i as int));
        assert(t.last() == element.children@[i as int]);
        next = render_element(out, &element.children[i], depth + 1, labels, next);
        assert(out@ =~= mid + render_forest(t, depth + 1, lv, start as int));
        i = i + 1;
    }
    assert(element.children@.take(n as int) == element.children@);
    assert(out@ =~= old(out)@ + render_tree(*element, depth as int, lv, pos as int));
    next
}

pub const PAGE_HEAD: &'static str = r#"<!DOCTYPE html>
<html lang="zh-CN">
<head>
  <meta charset="utf-8">
  <meta name="viewport" content="width=device-width, initial-scale=1">
  <title>"#;

pub const PAGE_STYLE: &'static str = r#"</title>
  <style>
    * { box-sizing: border-box; margin: 0; padding: 0; }
    body {
      font-family: "Segoe UI", system-ui, sans-serif;
      background: #0d1117;
      color: #c9d1d9;
      min-height: 100vh;
      display: flex;
      flex-direction: column;
      align-items: center;
      padding: 20px;
      gap: 12px;
    }
    header {
      width: min(100%, "#;

pub const PAGE_BODY: &'static str = r#"px);
      display: flex;
      flex-wrap: wrap;
      align-items: baseline;
      justify-content: space-between;
      gap: 8px;
    }
    h1 { font-size: 1rem; font-weight: 600; color: #f0f6fc; }
    .meta { font-size: 0.85rem; color: #8b949e; }
    .legend {
      display: flex;
      flex-wrap: wrap;
      gap: 10px;
      font-size: 0.75rem;
      color: #8b949e;
    }
    .legend-item { display: inline-flex; align-items: center; gap: 4px; }
    .legend-item i {
      display: inline-block;
      width: 14px;
      height: 14px;
      border-radius: 2px;
      border: 2px solid currentColor;
    }
    .canvas-wrap {
      overflow: auto;
      max-width: 100%;
      border: 1px solid #30363d;
      border-radius: 6px;
      box-shadow: 0 8px 24px rgba(0, 0, 0, 0.4);
    }
    .canvas {
      position: relative;
      background: #161b22;
      background-image:
        linear-gradient(rgba(255,255,255,0.03) 1px, transparent 1px),
        linear-gradient(90deg, rgba(255,255,255,0.03) 1px, transparent 1px);
      background-size: 20px 20px;
    }
    .node {
      position: absolute;
      border: 2px solid;
      background: rgba(255, 255, 255, 0.04);
      overflow: hidden;
      pointer-events: auto;
      transition: background 0.15s, box-shadow 0.15s;
    }
    .node:hover {
      background: rgba(255, 255, 255, 0.1);
      box-shadow: inset 0 0 0 1px rgba(255, 255, 255, 0.2);
      z-index: 9999;
    }
    .node.kind-text {
      border-style: dashed;
      background: rgba(0, 0, 0, 0.25);
      display: flex;
      align-items: center;
      justify-content: center;
      padding: 2px;
    }
    .badge {
      position: absolute;
      top: 0;
      left: 0;
      font-size: 9px;
      line-height: 1;
      padding: 2px 4px;
      background: rgba(0, 0, 0, 0.55);
      color: #fff;
      border-bottom-right-radius: 4px;
      pointer-events: none;
      white-space: nowrap;
    }
    .text-content {
      font-size: var(--fs, 11px);
      color: rgba(255, 255, 255, 0.92);
      text-align: center;
      line-height: 1.2;
      word-break: break-all;
      pointer-events: none;
    }
  </style>
</head>
<body>
  <header>
    <h1>"#;

pub const PAGE_META: &'static str = r#"</h1>
    <span class="meta">"#;

pub const PAGE_TIMES: &'static str = r#" × "#;

pub const PAGE_LEGEND: &'static str = r#" px</span>
  </header>
  <div class="legend">"#;

pub const PAGE_CANVAS: &'static str = r#"<span class="legend-item"><i style="border-style:dashed;background:transparent"></i>text</span></div>
  <div class="canvas-wrap">
    <div class="canvas" style="width:"#;

pub const PAGE_CANVAS_HEIGHT: &'static str = r#"px;height:"#;

pub const PAGE_NODES: &'static str = r#"px">
"#;

pub const PAGE_TAIL: &'static str = r#"    </div>
  </div>
</body>
</html>
"#;


pub const LEGEND_OPEN: &'static str = r#"<span class="legend-item"><i style="background:"#;

pub const LEGEND_MID: &'static str = r#""></i>L"#;

pub const DEFAULT_TITLE: &'static str = "UI Skeleton";

/// The legend: one entry per depth color, `L1` to `L8`.
pub open spec fn legend(n: int) -> Seq<char>
    decreases n,
{
    if n <= 0 {
        Seq::empty()
    } else {
        legend(n - 1) + LEGEND_OPEN@ + spec_depth_color(n) + LEGEND_MID@ + decimal(n) + SPAN_CLOSE@
    }
}

/// The whole page for an image of `width`×`height` with the escaped title `t` and
/// the node markup `nodes`.
pub open spec fn page(t: Seq<char>, width: int, height: int, nodes: Seq<char>) -> Seq<char> {
    PAGE_HEAD@ + t + PAGE_STYLE@ + decimal(width) + PAGE_BODY@ + t + PAGE_META@ + decimal(width)
        + PAGE_TIMES@ + decimal(height) + PAGE_LEGEND@ + legend(8) + PAGE_CANVAS@ + decimal(width)
        + PAGE_CANVAS_HEIGHT@ + decimal(height) + PAGE_NODES@ + nodes + PAGE_TAIL@
}

/// Renders the wireframe page of an extraction result. `labels` are the formatted
/// confidences, in the order of `confidence_requests`; the title defaults to
/// "UI Skeleton".
pub fn render_skeleton_html(result: &ExtractResult, title: Option<&str>, labels: &Vec<String>) -> (html: String)
    requires
        tree_height(result.root) < i64::MAX,
        tree_height(result.root) <= usize::MAX,
        tree_requests(result.root, 0).len() <= usize::MAX,
        heights_ok(result.root),
    ensures
        html@ == page(
            spec_html_escape(
                match title {
                    Some(t) => t@,
                    None => DEFAULT_TITLE@,
                },
            ),
            result.width as int,
            result.height as int,
            render_tree(result.root, 0, label_views(labels@), 0),
        ),
{
    let page_title = match title {
        Some(t) => t,
        None => DEFAULT_TITLE,
    };
    let mut nodes = String::new();
    render_element(&mut nodes, &result.root, 0, labels, 0);
    assert(nodes@ =~= render_tree(result.root, 0, label_views(labels@), 0));
    let mut legend_html = String::new();
    let mut k: usize = 1;
    while k <= 8
        invariant
            1 <= k <= 9,
            legend_html@ == legend(k - 1),
        decreases 9 - k,
    {
        legend_html.append(LEGEND_OPEN);
        legend_html.append(depth_color(k));
        legend_html.append(LEGEND_MID);
        push_decimal(&mut legend_html, k as i64);
        legend_html.append(SPAN_CLOSE);
        k = k + 1;
    }
    let t = html_escape(page_title);
    let w = result.width as i64;
    let h = result.height as i64;
    let mut s = String::from_str(PAGE_HEAD);
    s.append(t.as_str());
    s.append(PAGE_STYLE);
    push_decimal(&mut s, w);
    s.append(PAGE_BODY);
    s.append(t.as_str());
    s.append(PAGE_META);
    push_decimal(&mut s, w);
    s.append(PAGE_TIMES);
    push_decimal(&mut s, h);
    s.append(PAGE_LEGEND);
    s.append(legend_html.as_str());
    s.append(PAGE_CANVAS);
    push_decimal(&mut s, w);
    s.append(PAGE_CANVAS_HEIGHT);
    push_decimal(&mut s, h);
    s.append(PAGE_NODES);
    s.append(nodes.as_str());
    s.append(PAGE_TAIL);
    s
}


/// Escaped text holds no `<`, `>`, `"` or `'`: it cannot open or close a tag or an
/// attribute value.
pub proof fn lemma_escaped_has_no_markup(s: Seq<char>)
    ensures
        forall|i: int|
            0 <= i < spec_html_escape(s).len() ==> {
                let c = #[trigger] spec_html_escape(s)[i];
                c != '<' && c != '>' && c != '"' && c != '\''
            },
{
    lemma_escaped_prefix_clean(s, s.len() as int);
}

proof fn lemma_escaped_prefix_clean(s: Seq<char>, n: int)
    requires
        n <= s.len(),
    ensures
        forall|i: int|
            0 <= i < escaped(s, n).len() ==> {
                let c = #[trigger] escaped(s, n)[i];
                c != '<' && c != '>' && c != '"' && c != '\''
            },
    decreases n,
{
    if n > 0 {
        lemma_escaped_prefix_clean(s, n - 1);
        let a = escaped(s, n - 1);
        let e = escape_char(s[n - 1]);
        assert forall|i: int| 0 <= i < escaped(s, n).len() implies {
            let c = #[trigger] escaped(s, n)[i];
            c != '<' && c != '>' && c != '"' && c != '\''
        } by {
            if i < a.len() {
                assert(escaped(s, n)[i] == a[i]);
            } else {
                assert(escaped(s, n)[i] == e[i - a.len()]);
            }
        }
    }
}


/// Depth colors repeat every eight levels, and text is drawn between 8 and 16 px.
pub proof fn lemma_palette_cycle_and_font_range(depth: int, height: int)
    requires
        depth >= 1,
    ensures
        spec_depth_color(depth + 8) == spec_depth_color(depth),
        8 <= spec_text_font_size(height) <= 16,
{
    assert((depth + 8 - 1) % 8 == (depth - 1) % 8);
}

/// A node's box is drawn where the node lies: its markup opens with a `div` of the
/// node's kind class whose style puts the left edge at the box's `x`, the top edge
/// at its `y`, and gives the box's width and height, all in pixels.
pub proof fn lemma_node_placed_at_its_box(e: UiElement, depth: int, label: Seq<char>)
    requires
        !(e.kind is Root),
    ensures
        exists|rest: Seq<char>|
            node_html(e, depth, label) == "      <div class=\"node "@ + kind_class(e.kind)
                + "\" style=\"left:"@ + decimal(e.bounds.x as int) + "px;top:"@ + decimal(
                e.bounds.y as int,
            ) + "px;width:"@ + decimal(e.bounds.width as int) + "px;height:"@ + decimal(
                e.bounds.height as int,
            ) + "px;"@ + rest,
{
    reveal_strlit("      <div class=\"node ");
    reveal_strlit("\" style=\"left:");
    reveal_strlit("px;top:");
    reveal_strlit("px;width:");
    reveal_strlit("px;height:");
    reveal_strlit("px;");
    reveal_strlit("px;border-color:");
    reveal_strlit(r#"      <div class="node "#);
    reveal_strlit(r#"" style="left:"#);
    let b = e.bounds;
    let rest = "border-color:"@ + spec_depth_color(depth) + NODE_QUOTE@ + node_parts(e, label).0
        + NODE_BADGE@ + spec_html_escape(badge(depth, kind_word(e.kind))) + SPAN_CLOSE@ + node_parts(
        e,
        label,
    ).1 + NODE_CLOSE@;
    reveal_strlit("border-color:");
    assert(NODE_BORDER@ =~= "px;"@ + "border-color:"@);
    assert(node_html(e, depth, label) =~= "      <div class=\"node "@ + kind_class(e.kind)
        + "\" style=\"left:"@ + decimal(b.x as int) + "px;top:"@ + decimal(b.y as int)
        + "px;width:"@ + decimal(b.width as int) + "px;height:"@ + decimal(b.height as int) + "px;"@
        + rest);
}

} // verus!
