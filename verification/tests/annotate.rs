use ui_extractor::annotate::{annotation_marks, FrameRect, Rgb8};
use ui_extractor::types::{Bounds, UiElement, UiElementKind};

#[test]
fn text_child_gets_green_outline_and_label() {
    let root = UiElement::container(
        Bounds::new(0, 0, 100, 100),
        vec![UiElement::text(Bounds::new(10, 10, 40, 20), "Hi".into(), Some(90.0f32.to_bits()))],
    );
    let marks = annotation_marks(&root);
    assert_eq!(marks.len(), 1);
    let m = &marks[0];
    assert_eq!(m.outer, FrameRect { left: 10, top: 10, width: 40, height: 20 });
    assert_eq!(m.inner, FrameRect { left: 11, top: 11, width: 38, height: 18 });
    assert_eq!(m.color, Rgb8 { r: 0, g: 180, b: 70 });
    let label = m.label.as_ref().unwrap();
    assert_eq!((label.text.as_str(), label.x, label.y), ("Hi", 10, 0));
}

#[test]
fn marks_follow_preorder_with_kind_colors() {
    let root = UiElement::container(
        Bounds::new(0, 0, 300, 300),
        vec![
            UiElement::container(
                Bounds::new(5, 40, 200, 100),
                vec![UiElement::icon(Bounds::new(-3, 60, 1, 2), "mdi:home".into(), None)],
            ),
            UiElement::text(
                Bounds::new(10, 200, 50, 30),
                "  a very long label that goes on and on  ".into(),
                None,
            ),
        ],
    );
    let marks = annotation_marks(&root);
    assert_eq!(marks.len(), 3);
    assert_eq!(marks[0].color, Rgb8 { r: 0, g: 120, b: 255 });
    assert!(marks[0].label.is_none());
    assert_eq!(marks[1].color, Rgb8 { r: 255, g: 140, b: 0 });
    // Narrow boxes keep a one-pixel inner frame; labels stay on the canvas.
    assert_eq!(marks[1].inner, FrameRect { left: -2, top: 61, width: 1, height: 1 });
    let icon_label = marks[1].label.as_ref().unwrap();
    assert_eq!((icon_label.text.as_str(), icon_label.x, icon_label.y), ("mdi:home", 0, 44));
    let text_label = marks[2].label.as_ref().unwrap();
    assert_eq!(text_label.text, "a very long label that g…");
    assert_eq!(text_label.y, 184);
}

#[test]
fn root_kind_below_top_ends_its_branch() {
    let hidden = UiElement {
        bounds: Bounds::new(1, 1, 10, 10),
        kind: UiElementKind::Root,
        children: vec![UiElement::text(Bounds::new(2, 2, 3, 3), "x".into(), None)],
    };
    let top = UiElement::container(
        Bounds::new(0, 0, 50, 50),
        vec![hidden, UiElement::container(Bounds::new(20, 20, 5, 5), vec![])],
    );
    let marks = annotation_marks(&top);
    assert_eq!(marks.len(), 1);
    assert_eq!(marks[0].outer, FrameRect { left: 20, top: 20, width: 5, height: 5 });
}
