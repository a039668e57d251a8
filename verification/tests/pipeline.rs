use ui_extractor::pipeline::{attach_words, center_of, point_in, OcrWord};
use ui_extractor::types::{Bounds, UiElement, UiElementKind};

fn average(v: Vec<u32>) -> u32 {
    if v.is_empty() {
        return 0f32.to_bits();
    }
    let s: f32 = v.iter().map(|b| f32::from_bits(*b)).sum();
    (s / v.len() as f32).to_bits()
}

fn word(text: &str, b: Bounds, conf: f32) -> OcrWord {
    OcrWord { text: text.to_string(), bounds: b, confidence: conf.to_bits() }
}

fn texts(e: &UiElement) -> Vec<(String, Bounds)> {
    e.children
        .iter()
        .filter_map(|c| match &c.kind {
            UiElementKind::Text { content, .. } => Some((content.clone(), c.bounds)),
            _ => None,
        })
        .collect()
}

#[test]
fn assigns_word_to_smallest_container() {
    let mut root = UiElement {
        bounds: Bounds::new(0, 0, 100, 100),
        kind: UiElementKind::Root,
        children: vec![UiElement::container(Bounds::new(10, 10, 40, 40), vec![])],
    };
    let words = vec![word("OK", Bounds::new(15, 15, 20, 10), 90.0)];
    attach_words(&mut root, &words, &average);
    assert!(root.children[0].children.iter().any(|c| matches!(
        c.kind,
        UiElementKind::Text { ref content, .. } if content == "OK"
    )));
}

#[test]
fn word_outside_every_box_is_dropped() {
    let mut root = UiElement {
        bounds: Bounds::new(0, 0, 100, 100),
        kind: UiElementKind::Root,
        children: vec![],
    };
    let words = vec![word("far", Bounds::new(500, 500, 10, 10), 80.0)];
    attach_words(&mut root, &words, &average);
    assert!(root.children.is_empty());
}

#[test]
fn equal_areas_go_to_the_later_node() {
    let mut root = UiElement {
        bounds: Bounds::new(0, 0, 100, 100),
        kind: UiElementKind::Root,
        children: vec![
            UiElement::container(Bounds::new(0, 0, 50, 50), vec![]),
            UiElement::container(Bounds::new(10, 10, 50, 50), vec![]),
        ],
    };
    let words = vec![word("x", Bounds::new(20, 20, 10, 10), 70.0)];
    attach_words(&mut root, &words, &average);
    assert!(texts(&root.children[0]).is_empty());
    assert_eq!(texts(&root.children[1]).len(), 1);
}

#[test]
fn words_form_lines_in_reading_order() {
    let mut root = UiElement {
        bounds: Bounds::new(0, 0, 300, 200),
        kind: UiElementKind::Root,
        children: vec![],
    };
    let words = vec![
        word("world", Bounds::new(60, 12, 40, 12), 80.0),
        word("second", Bounds::new(10, 50, 50, 12), 60.0),
        word("hello", Bounds::new(10, 10, 40, 12), 90.0),
    ];
    attach_words(&mut root, &words, &average);
    let t = texts(&root);
    assert_eq!(t.len(), 2);
    assert_eq!(t[0].0, "hello world");
    assert_eq!(t[0].1, Bounds::new(10, 10, 90, 14));
    assert_eq!(t[1].0, "second");
    assert_eq!(t[1].1, Bounds::new(10, 50, 50, 12));
    match &root.children[0].kind {
        UiElementKind::Text { confidence: Some(c), .. } => {
            assert_eq!(f32::from_bits(*c), 85.0);
        }
        _ => panic!("expected a text element"),
    }
}

#[test]
fn no_words_leave_tree_unchanged() {
    let mut root = UiElement {
        bounds: Bounds::new(0, 0, 100, 100),
        kind: UiElementKind::Root,
        children: vec![UiElement::container(Bounds::new(10, 10, 40, 40), vec![])],
    };
    attach_words(&mut root, &vec![], &average);
    assert_eq!(root.children.len(), 1);
    assert!(root.children[0].children.is_empty());
}

#[test]
fn center_and_membership() {
    let b = Bounds::new(15, 15, 20, 10);
    assert_eq!(center_of(&b), (25, 20));
    let odd = Bounds::new(-5, -5, 3, 3);
    assert_eq!(center_of(&odd), (-4, -4));
    assert!(point_in((25, 20), &Bounds::new(10, 10, 40, 40)));
    assert!(!point_in((50, 20), &Bounds::new(10, 10, 40, 40)));
}

#[test]
fn words_far_from_the_origin_are_attached() {
    let x0 = 1_500_000_000;
    let mut root = UiElement::container(
        Bounds::new(x0, 0, 200, 100),
        vec![],
    );
    let words = vec![
        word("far", Bounds::new(x0 + 10, 10, 30, 12), 0.5),
        word("away", Bounds::new(x0 + 50, 11, 40, 12), 0.7),
    ];
    attach_words(&mut root, &words, &average);
    assert_eq!(
        texts(&root),
        vec![("far away".to_string(), Bounds::new(x0 + 10, 10, 80, 13))]
    );
}
