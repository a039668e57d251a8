use ui_extractor::mask::RgbPixels;
use ui_extractor::ocr::{crop_rgb, pad_rgb};
use ui_extractor::raster::{raster_workers, select_svg_files, tint_svg, IconRasterColor, SvgEntry};
use ui_extractor::text::replace_all_str;
use ui_extractor::types::Bounds;

#[test]
fn white_ink_fills_every_path() {
    let svg = r#"<svg><path d="M0"/><path d="M1"/></svg>"#;
    assert_eq!(tint_svg(svg, IconRasterColor::Black), svg);
    assert_eq!(
        tint_svg(svg, IconRasterColor::White),
        r##"<svg><path fill="#FFFFFF" d="M0"/><path fill="#FFFFFF" d="M1"/></svg>"##
    );
}

#[test]
fn replacement_does_not_overlap() {
    assert_eq!(replace_all_str("aaa", "aa", "b"), "ba");
    assert_eq!(replace_all_str("xyz", "q", "r"), "xyz");
}

fn rgb(w: u32, h: u32) -> RgbPixels {
    let mut data = Vec::new();
    for i in 0..(w * h) {
        data.extend_from_slice(&[i as u8, (i + 1) as u8, (i + 2) as u8]);
    }
    RgbPixels { width: w, height: h, data }
}

#[test]
fn padding_surrounds_image() {
    let img = rgb(2, 1);
    let out = pad_rgb(&img, 1, 2, 0, 1, 9);
    assert_eq!((out.width, out.height), (3, 4));
    assert_eq!(&out.data[0..3], &[9, 9, 9]);
    // Row 2, column 1 holds source pixel (0, 0).
    let k = (2 * 3 + 1) * 3;
    assert_eq!(&out.data[k..k + 6], &[0, 1, 2, 1, 2, 3]);
}

#[test]
fn rgb_crop_clips() {
    let img = rgb(4, 4);
    let out = crop_rgb(&img, &Bounds::new(2, 3, 10, 10));
    assert_eq!((out.width, out.height), (2, 1));
    assert_eq!(&out.data[0..3], &img.data[(3 * 4 + 2) * 3..(3 * 4 + 2) * 3 + 3]);
    let empty = crop_rgb(&img, &Bounds::new(-5, 0, 3, 3));
    assert_eq!((empty.width, empty.height, empty.data.len()), (0, 0, 0));
}

fn entry(name: &str, ext: Option<&str>, png_exists: bool) -> SvgEntry {
    SvgEntry {
        path: format!("svg/{name}.{}", ext.unwrap_or("")),
        stem: Some(name.to_string()),
        extension: ext.map(str::to_string),
        png_exists,
    }
}

#[test]
fn svg_files_selected_by_extension_and_existing_output() {
    let entries = vec![
        entry("home", Some("svg"), false),
        entry("menu", Some("SVG"), true),
        entry("notes", Some("txt"), false),
        entry("plain", None, false),
        SvgEntry { path: "svg/bad.svg".into(), stem: None, extension: Some("Svg".into()), png_exists: false },
    ];
    assert_eq!(
        select_svg_files(&entries, false),
        vec!["svg/home.svg", "svg/menu.SVG", "svg/bad.svg"]
    );
    assert_eq!(select_svg_files(&entries, true), vec!["svg/home.svg"]);
    assert!(select_svg_files(&vec![], false).is_empty());
}

#[test]
fn raster_workers_requested_or_default_within_files() {
    assert_eq!(raster_workers(Some(3), 16, 100), 3);
    assert_eq!(raster_workers(None, 16, 100), 16);
    assert_eq!(raster_workers(Some(0), 16, 100), 1);
    assert_eq!(raster_workers(None, 16, 5), 5);
}
