use ui_extractor::ocr::{
    bin_file_name, bin_path, contour_aabb, convert_words, decode_ctc, MatPixelType, OcrBounds,
    OcrConfig, RecognizedWord,
};
use ui_extractor::types::{map_extract_error, map_ncnn_err, Bounds, ExtractError};

#[test]
fn ocr_config_defaults() {
    let config = OcrConfig::default();
    assert!(config.max_side > 0);
    assert_eq!(f32::from_bits(config.min_confidence), 0.5);
}

#[test]
fn convert_bounds_roundtrip() {
    let core = RecognizedWord {
        text: "hi".into(),
        bounds: OcrBounds::new(1, 2, 3, 4),
        confidence: 99.0f32.to_bits(),
    };
    let word = convert_words(vec![core]).pop().unwrap();
    assert_eq!(word.bounds, Bounds::new(1, 2, 3, 4));
    assert_eq!(word.text, "hi");
}

fn argmax_rows(data: &[f32], w: usize, h: usize) -> Vec<usize> {
    (0..h)
        .map(|t| {
            let row = &data[t * w..(t + 1) * w];
            let (mut best_idx, mut best_score) = (0usize, f32::NEG_INFINITY);
            for (j, &score) in row.iter().enumerate() {
                if score > best_score {
                    best_score = score;
                    best_idx = j;
                }
            }
            best_idx
        })
        .collect()
}

#[test]
fn ctc_skips_blank_and_repeats() {
    let dict = vec!["a".to_string(), "b".to_string()];
    // 3 timesteps x 3 classes (blank + a + b)
    let mut s = vec![0.0f32; 9];
    s[1] = 1.0; // t0 -> a
    s[4] = 1.0; // t1 -> a (repeat, skip)
    s[8] = 1.0; // t2 -> b (index 2)
    assert_eq!(decode_ctc(&argmax_rows(&s, 3, 3), &dict), "ab");
}

#[test]
fn ctc_blank_separates_repeats() {
    let dict = vec!["a".to_string(), "b".to_string()];
    assert_eq!(decode_ctc(&vec![1, 0, 1, 7, 2], &dict), "aab");
}

#[test]
fn aabb_of_points() {
    assert_eq!(contour_aabb(&vec![(5, 9), (2, 11), (7, 3)]), (2, 3, 7, 11));
    assert_eq!(contour_aabb(&vec![]), (u32::MAX, u32::MAX, 0, 0));
}

#[test]
fn pixel_codes() {
    assert_eq!(MatPixelType::RGB.to_int(), 1);
    assert_eq!(MatPixelType::RgbToBgr.to_int(), 1 | (2 << 16));
    assert_eq!(MatPixelType::BgraToGray.to_int(), 5 | (3 << 16));
    assert_eq!(MatPixelType::GrayToRgb.stride(), 1);
    assert_eq!(MatPixelType::BGRA.stride(), 4);
    assert_eq!(MatPixelType::RgbToBgr.stride(), 3);
}

#[test]
fn weights_file_names() {
    assert_eq!(bin_file_name("det.ncnn.param").as_deref(), Some("det.ncnn.bin"));
    assert_eq!(bin_file_name("det.param").as_deref(), Some("det.bin"));
    assert_eq!(bin_file_name("det.onnx"), None);
    assert_eq!(bin_path("models/det.ncnn.param"), "models/det.ncnn.bin");
    assert_eq!(bin_path("models/det.txt"), "models/det.bin");
}

#[test]
fn error_messages() {
    assert_eq!(ExtractError::Image("x".into()).message(), "image error: x");
    assert_eq!(ExtractError::EmptyLayout.message(), "image has no contours after filtering");
    match map_ncnn_err(ExtractError::Image("y".into())) {
        ExtractError::Ocr(m) => assert_eq!(m, "y"),
        _ => panic!("expected an OCR error"),
    }
}

#[test]
fn extract_error_crosses_the_c_interface_as_its_sentence() {
    assert_eq!(
        map_extract_error(ExtractError::ImageRead("a.png".into())),
        "failed to read image: a.png"
    );
    assert_eq!(map_extract_error(ExtractError::Ocr("net".into())), "OCR failed: net");
}

#[test]
fn bin_path_replaces_file_name_or_extension() {
    assert_eq!(bin_path("models/rec.param"), "models/rec.bin");
    assert_eq!(bin_path("det.ncnn.param"), "det.ncnn.bin");
    assert_eq!(bin_path("a/b/net"), "a/b/net.bin");
}
