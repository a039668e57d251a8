use ui_extractor::icon::{
    apply_icon_hits, collect_icon_jobs, crop_gray, has_text_descendant, is_icon_candidate,
    write_icon_matches, IconConfig, IconHit,
};
use ui_extractor::imaging::GrayPixels;
use ui_extractor::mask::{
    estimate_background, ink_ratio_ok, mask_to_rgb256, normalize_query_mask, icon_crop_to_rgb256,
    adaptive_threshold, ink_mask_from_gray, INPUT_SIZE,
};
use ui_extractor::types::{Bounds, UiElement, UiElementKind};

#[test]
fn detects_square_leaf_container() {
    let el = UiElement::container(Bounds::new(0, 0, 24, 24), vec![]);
    assert!(is_icon_candidate(&el, &IconConfig::default()));

    let with_text = UiElement::container(
        Bounds::new(0, 0, 24, 24),
        vec![UiElement::text(Bounds::new(2, 2, 20, 20), "x".into(), None)],
    );
    assert!(!is_icon_candidate(&with_text, &IconConfig::default()));
}

#[test]
fn rejects_wide_bar() {
    let el = UiElement::container(Bounds::new(0, 0, 80, 16), vec![]);
    assert!(!is_icon_candidate(&el, &IconConfig::default()));
}

#[test]
fn aspect_limits_are_inclusive() {
    let config = IconConfig::default();
    // 11 / 20 is exactly the lower limit, 37 / 20 the upper one.
    let low = UiElement::container(Bounds::new(0, 0, 22, 40), vec![]);
    let high = UiElement::container(Bounds::new(0, 0, 74, 40), vec![]);
    let below = UiElement::container(Bounds::new(0, 0, 21, 40), vec![]);
    assert!(is_icon_candidate(&low, &config));
    assert!(is_icon_candidate(&high, &config));
    assert!(!is_icon_candidate(&below, &config));
    let tiny = UiElement::container(Bounds::new(0, 0, 11, 11), vec![]);
    let huge = UiElement::container(Bounds::new(0, 0, 97, 97), vec![]);
    assert!(!is_icon_candidate(&tiny, &config));
    assert!(!is_icon_candidate(&huge, &config));
    let text = UiElement::text(Bounds::new(0, 0, 24, 24), "t".into(), None);
    assert!(!is_icon_candidate(&text, &config));
}

#[test]
fn text_below_is_found() {
    let deep = UiElement::container(
        Bounds::new(0, 0, 50, 50),
        vec![UiElement::container(
            Bounds::new(1, 1, 40, 40),
            vec![UiElement::text(Bounds::new(2, 2, 5, 5), "a".into(), None)],
        )],
    );
    assert!(has_text_descendant(&deep));
    let plain = UiElement::container(Bounds::new(0, 0, 50, 50), vec![]);
    assert!(!has_text_descendant(&plain));
}

fn sample_tree() -> UiElement {
    UiElement {
        bounds: Bounds::new(0, 0, 200, 200),
        kind: UiElementKind::Root,
        children: vec![
            UiElement::container(
                Bounds::new(0, 0, 150, 100),
                vec![UiElement::container(Bounds::new(10, 10, 24, 24), vec![])],
            ),
            UiElement::container(Bounds::new(160, 10, 30, 30), vec![]),
        ],
    }
}

#[test]
fn jobs_follow_preorder_with_paths() {
    let tree = sample_tree();
    let mut path = Vec::new();
    let mut jobs = Vec::new();
    collect_icon_jobs(&tree, &mut path, &IconConfig::default(), &mut jobs);
    assert!(path.is_empty());
    assert_eq!(jobs.len(), 2);
    assert_eq!(jobs[0].path, vec![0, 0]);
    assert_eq!(jobs[0].bounds, Bounds::new(10, 10, 24, 24));
    assert_eq!(jobs[1].path, vec![1]);
}

#[test]
fn hits_become_icons() {
    let mut tree = sample_tree();
    let mut jobs = Vec::new();
    collect_icon_jobs(&tree, &mut Vec::new(), &IconConfig::default(), &mut jobs);
    let hits = vec![Some(IconHit { name: "mdi:home".into(), confidence: 0.9f32.to_bits() }), None];
    let matched = apply_icon_hits(&mut tree, &jobs, hits);
    assert_eq!(matched, 1);
    match &tree.children[0].children[0].kind {
        UiElementKind::Icon { name, confidence } => {
            assert_eq!(name, "mdi:home");
            assert_eq!(*confidence, Some(0.9f32.to_bits()));
        }
        _ => panic!("expected an icon"),
    }
    assert_eq!(tree.children[0].children[0].bounds, Bounds::new(10, 10, 24, 24));
    assert!(matches!(tree.children[1].kind, UiElementKind::Container));
}

fn square_image() -> GrayPixels {
    let mut pixels = vec![255u8; 32 * 32];
    for y in 8..24 {
        for x in 8..24 {
            pixels[y * 32 + x] = 0;
        }
    }
    GrayPixels { width: 32, height: 32, pixels }
}

#[test]
fn crop_clips_to_image() {
    let img = square_image();
    let c = crop_gray(&img, &Bounds::new(-4, 20, 10, 100)).unwrap();
    assert_eq!((c.width, c.height), (6, 12));
    assert_eq!(c.pixels[0], img.pixels[20 * 32]);
    assert!(crop_gray(&img, &Bounds::new(40, 0, 5, 5)).is_none());
}

#[test]
fn background_and_threshold() {
    let img = square_image();
    assert_eq!(estimate_background(&img), 255);
    // Every ink pixel is 255 away from the background: clamped to 48.
    assert_eq!(adaptive_threshold(&img, 255), 48);
    let flat = GrayPixels { width: 4, height: 4, pixels: vec![9; 16] };
    assert_eq!(adaptive_threshold(&flat, 9), 24);
    let empty = GrayPixels { width: 0, height: 0, pixels: vec![] };
    assert_eq!(estimate_background(&empty), 255);
    let dark = ink_mask_from_gray(&img, true);
    assert_eq!(dark.iter().filter(|v| **v > 0).count(), 256);
}

#[test]
fn ink_ratio_bounds() {
    assert!(ink_ratio_ok(3, 100));
    assert!(ink_ratio_ok(72, 100));
    assert!(!ink_ratio_ok(2, 100));
    assert!(!ink_ratio_ok(73, 100));
    assert!(!ink_ratio_ok(0, 0));
}

#[test]
fn mask_renders_black_square() {
    let img = square_image();
    let rgb = icon_crop_to_rgb256(&img, 16);
    assert_eq!((rgb.width, rgb.height), (INPUT_SIZE, INPUT_SIZE));
    let c = ((INPUT_SIZE / 2) * INPUT_SIZE + INPUT_SIZE / 2) as usize * 3;
    assert_eq!(&rgb.data[c..c + 3], &[0, 0, 0]);
}

#[test]
fn normalize_filled_square() {
    let img = square_image();
    let (mask, dark) = normalize_query_mask(&img, 16);
    assert!(dark);
    assert!(mask.iter().filter(|&&v| v > 0).count() > 20);
}

#[test]
fn full_size_mask_is_drawn_directly() {
    let mut mask = vec![0u8; 256 * 256];
    mask[0] = 1;
    let rgb = mask_to_rgb256(&mask, 256);
    assert_eq!(&rgb.data[0..6], &[0, 0, 0, 255, 255, 255]);
}

#[test]
fn unmatched_regions_stay_containers() {
    let mut tree = sample_tree();
    let mut jobs = Vec::new();
    collect_icon_jobs(&tree, &mut Vec::new(), &IconConfig::default(), &mut jobs);
    let matched = apply_icon_hits(&mut tree, &jobs, vec![None, None]);
    assert_eq!(matched, 0);
    assert!(matches!(tree.children[0].children[0].kind, UiElementKind::Container));
    assert!(matches!(tree.children[1].kind, UiElementKind::Container));
    assert_eq!(tree.children[0].children[0].bounds, Bounds::new(10, 10, 24, 24));
}

#[test]
fn matches_written_to_candidates_in_preorder() {
    let mut tree = sample_tree();
    let hits = vec![
        None,
        Some(IconHit { name: "mdi:menu".into(), confidence: 0.8f32.to_bits() }),
        Some(IconHit { name: "mdi:extra".into(), confidence: 0.7f32.to_bits() }),
    ];
    let matched = write_icon_matches(&mut tree, &IconConfig::default(), hits);
    assert_eq!(matched, 1);
    assert!(matches!(tree.children[0].children[0].kind, UiElementKind::Container));
    assert!(matches!(tree.children[0].kind, UiElementKind::Container));
    match &tree.children[1].kind {
        UiElementKind::Icon { name, .. } => assert_eq!(name, "mdi:menu"),
        other => panic!("expected an icon, got {other:?}"),
    }
    assert_eq!(tree.children[1].bounds, Bounds::new(160, 10, 30, 30));
}
