use ui_extractor::skeleton::{
    confidence_requests, depth_color, html_escape, push_decimal, render_skeleton_html,
    text_font_size,
};
use ui_extractor::types::{Bounds, ExtractResult, UiElement};

fn labels_for(root: &UiElement) -> Vec<String> {
    confidence_requests(root)
        .into_iter()
        .map(|(bits, icon)| {
            let c = f32::from_bits(bits);
            if icon {
                format!("{:.0}", c * 100.0)
            } else {
                format!("{:.0}", c)
            }
        })
        .collect()
}

fn sample() -> ExtractResult {
    ExtractResult {
        width: 200,
        height: 100,
        root: UiElement::container(
            Bounds::new(0, 0, 200, 100),
            vec![
                UiElement::container(
                    Bounds::new(10, 10, 80, 40),
                    vec![UiElement::text(Bounds::new(20, 20, 40, 20), "Hi".into(), Some(90.0f32.to_bits()))],
                ),
                UiElement::text(Bounds::new(100, 10, 50, 20), "Btn".into(), None),
            ],
        ),
    }
}

#[test]
fn renders_html_with_depth_colors() {
    let result = sample();
    let labels = labels_for(&result.root);
    let html = render_skeleton_html(&result, Some("test"), &labels);
    assert!(html.contains("<!DOCTYPE html>"));
    assert!(html.contains("border-color:#e63946"));
    assert!(html.contains("border-color:#457b9d"));
    assert!(html.contains("Hi"));
}

#[test]
fn node_markup_and_labels() {
    let result = sample();
    let labels = labels_for(&result.root);
    assert_eq!(labels, vec!["90".to_string()]);
    let html = render_skeleton_html(&result, None, &labels);
    assert!(html.contains("<title>UI Skeleton</title>"));
    assert!(html.contains("200 × 100 px"));
    assert!(html.contains(
        r#"<div class="node kind-text" style="left:20px;top:20px;width:40px;height:20px;border-color:#457b9d" title="Hi · 90%"><span class="badge">L2 · text</span><span class="text-content" style="--fs:13px">Hi</span></div>"#
    ));
    assert!(html.contains(r#"title="Btn""#));
    assert!(html.contains(r#"<i style="background:#06d6a0"></i>L8</span>"#));
}

#[test]
fn escapes_markup() {
    assert_eq!(html_escape(r#"a<b>&"c'"#), "a&lt;b&gt;&amp;&quot;c&#39;");
    assert_eq!(html_escape("相变临界"), "相变临界");
}

#[test]
fn colors_cycle_by_depth() {
    assert_eq!(depth_color(1), "#e63946");
    assert_eq!(depth_color(8), "#06d6a0");
    assert_eq!(depth_color(9), "#e63946");
}

#[test]
fn font_size_clamps() {
    assert_eq!(text_font_size(3), 8);
    assert_eq!(text_font_size(18), 12);
    assert_eq!(text_font_size(100), 16);
    assert_eq!(text_font_size(-30), 8);
}

#[test]
fn decimal_text() {
    let mut s = String::new();
    push_decimal(&mut s, -1205);
    push_decimal(&mut s, 0);
    push_decimal(&mut s, i64::MIN);
    assert_eq!(s, format!("-12050{}", i64::MIN));
}
