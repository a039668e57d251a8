use image::{GrayImage, Luma};
use imageproc::drawing::{draw_filled_rect_mut, draw_hollow_rect_mut};
use imageproc::rect::Rect;
use ui_extractor::imaging::{extract_layout_from_edges, GrayPixels};
use ui_extractor::layout::{
    classify_contour, contour_bounds, is_redundant_nested, is_tight_inset, is_uniform_inset,
    prune_redundant, Contour, ContourKeep, LayoutConfig,
};
use ui_extractor::types::{Bounds, Ratio, UiElement, UiElementKind};

/// Blur and Canny edges as the extraction program computes them, then the
/// verified layout pipeline.
fn layout_of(img: &GrayImage) -> UiElement {
    let kernel: [f32; 9] = [
        1.0 / 16.0,
        2.0 / 16.0,
        1.0 / 16.0,
        2.0 / 16.0,
        4.0 / 16.0,
        2.0 / 16.0,
        1.0 / 16.0,
        2.0 / 16.0,
        1.0 / 16.0,
    ];
    let blurred = imageproc::filter::filter3x3(img, &kernel);
    let edges = imageproc::edges::canny(&blurred, 50.0, 100.0);
    let (w, h) = edges.dimensions();
    let px = GrayPixels { width: w, height: h, pixels: edges.into_raw() };
    extract_layout_from_edges(&px, &LayoutConfig::default()).layout.root
}

fn flatten_bounds(node: &UiElement) -> Vec<Bounds> {
    let mut out = vec![node.bounds];
    for child in &node.children {
        out.extend(flatten_bounds(child));
    }
    out
}

fn count_containers(node: &UiElement) -> usize {
    let own = if matches!(node.kind, UiElementKind::Container) { 1 } else { 0 };
    own + node.children.iter().map(count_containers).sum::<usize>()
}

#[test]
fn detects_drawn_rectangle() {
    let mut img = GrayImage::from_pixel(200, 200, Luma([255]));
    draw_hollow_rect_mut(&mut img, Rect::at(40, 40).of_size(80, 60), Luma([0]));
    let tree = layout_of(&img);
    assert!(!tree.children.is_empty());
}

#[test]
fn skips_hole_contours() {
    let mut img = GrayImage::from_pixel(80, 80, Luma([255]));
    draw_filled_rect_mut(&mut img, Rect::at(10, 10).of_size(60, 60), Luma([0]));
    draw_filled_rect_mut(&mut img, Rect::at(25, 25).of_size(30, 30), Luma([255]));
    let tree = layout_of(&img);
    let flat = flatten_bounds(&tree);
    assert!(
        flat.iter().all(|b| b.area() >= 100),
        "hole interior should not appear as its own box"
    );
}

#[test]
fn prunes_tight_inset_duplicate() {
    let mut img = GrayImage::from_pixel(120, 120, Luma([255]));
    draw_hollow_rect_mut(&mut img, Rect::at(20, 20).of_size(80, 50), Luma([0]));
    draw_filled_rect_mut(&mut img, Rect::at(23, 23).of_size(74, 44), Luma([0]));
    let tree = layout_of(&img);
    let containers = count_containers(&tree);
    assert!(containers <= 2, "inset duplicate should collapse, got {containers} containers");
}

#[test]
fn blank_image_gives_empty_root() {
    let img = GrayImage::from_pixel(64, 48, Luma([200]));
    let tree = layout_of(&img);
    assert!(matches!(tree.kind, UiElementKind::Root));
    assert_eq!(tree.bounds, Bounds::new(0, 0, 64, 48));
    assert!(tree.children.is_empty());
}

#[test]
fn bounds_edges_and_area() {
    let b = Bounds::new(10, 20, 30, 40);
    assert_eq!(b.right(), 40);
    assert_eq!(b.bottom(), 60);
    assert_eq!(b.area(), 1200);
}

#[test]
fn bounds_contains_and_intersection() {
    let outer = Bounds::new(0, 0, 100, 100);
    let inner = Bounds::new(10, 10, 20, 20);
    let apart = Bounds::new(200, 200, 5, 5);
    let cross = Bounds::new(90, 90, 20, 20);
    assert!(outer.contains(&inner));
    assert!(!inner.contains(&outer));
    assert_eq!(outer.intersection_area(&inner), 400);
    assert_eq!(outer.intersection_area(&apart), 0);
    assert_eq!(outer.intersection_area(&cross), 100);
}

#[test]
fn iou_limit_is_exact() {
    let a = Bounds::new(0, 0, 10, 10);
    let b = Bounds::new(0, 0, 10, 5);
    // IoU is 50 / 100.
    assert!(a.iou_at_most(&b, &Ratio::new(1, 2)));
    assert!(!a.iou_at_most(&b, &Ratio::new(49, 100)));
}

#[test]
fn classify_contour_by_box() {
    let config = LayoutConfig::default();
    let big = Bounds::new(0, 0, 50, 50);
    let small = Bounds::new(0, 0, 5, 5);
    let thin = Bounds::new(0, 0, 200, 1);
    let hole = Bounds::new(0, 0, 30, 30);
    assert!(matches!(classify_contour(&big, false, &config), ContourKeep::Yes));
    assert!(matches!(classify_contour(&big, true, &config), ContourKeep::Yes));
    assert!(matches!(classify_contour(&small, false, &config), ContourKeep::AreaTooSmall));
    assert!(matches!(classify_contour(&hole, true, &config), ContourKeep::HoleTooSmall));
    assert!(matches!(classify_contour(&thin, false, &config), ContourKeep::TooThin));
}

#[test]
fn contour_bounds_cover_points() {
    let c = Contour { points: vec![(3, 4), (10, 2), (7, 9)], is_hole: false, parent: None };
    assert_eq!(contour_bounds(&c), Bounds::new(3, 2, 8, 8));
}

#[test]
fn insets() {
    let outer = Bounds::new(0, 0, 100, 60);
    let inner = Bounds::new(3, 3, 94, 54);
    assert!(is_tight_inset(&outer, &inner, 10));
    assert!(!is_tight_inset(&outer, &inner, 2));
    assert!(is_uniform_inset(&outer, &inner, 20));
    let lopsided = Bounds::new(1, 15, 98, 44);
    assert!(!is_uniform_inset(&outer, &lopsided, 20));
}

#[test]
fn prune_drops_inset_child_with_its_subtree() {
    let config = LayoutConfig::default();
    let grandchild = UiElement::container(Bounds::new(10, 10, 20, 20), vec![]);
    let child = UiElement::container(Bounds::new(2, 2, 96, 56), vec![grandchild]);
    let keep = UiElement::container(Bounds::new(40, 5, 20, 20), vec![]);
    let parent = Bounds::new(0, 0, 100, 60);
    assert!(is_redundant_nested(&parent, &child, &config));
    assert!(!is_redundant_nested(&parent, &keep, &config));
    let root = UiElement { bounds: parent, kind: UiElementKind::Root, children: vec![child, keep] };
    let pruned = prune_redundant(&root, &config);
    assert_eq!(pruned.children.len(), 1);
    assert_eq!(pruned.children[0].bounds, Bounds::new(40, 5, 20, 20));
    let again = prune_redundant(&pruned, &config);
    assert_eq!(flatten_bounds(&again), flatten_bounds(&pruned));
}

#[test]
fn every_node_lies_inside_the_screen() {
    let mut img = GrayImage::from_pixel(120, 90, Luma([255]));
    draw_hollow_rect_mut(&mut img, Rect::at(0, 0).of_size(120, 90), Luma([0]));
    draw_hollow_rect_mut(&mut img, Rect::at(10, 10).of_size(60, 40), Luma([0]));
    draw_filled_rect_mut(&mut img, Rect::at(80, 50).of_size(40, 40), Luma([0]));
    let tree = layout_of(&img);
    let screen = Bounds::new(0, 0, 120, 90);
    assert_eq!(tree.bounds, screen);
    for b in flatten_bounds(&tree) {
        assert!(screen.contains(&b), "{b:?} leaves the screen");
    }
}
