use ui_extractor::config::{
    config_from_overrides, EngineOverrides, DEFAULT_ICON_INDEX_PACK, DEFAULT_OCR_PACK,
};
use ui_extractor::runtime::{OnnxConfig, RuntimeConfig};
use ui_extractor::types::Ratio;

/// What a document that names only the two pass switches gives.
fn switches_only(run_ocr: bool, run_icon: bool) -> EngineOverrides {
    EngineOverrides {
        run_ocr,
        run_icon,
        models_dir: None,
        ocr_pack: None,
        icon_index_pack: None,
        runtime: None,
        min_area: None,
        ocr_max_side: None,
        ocr_min_confidence: None,
        icon_template_size: None,
        icon_min_cosine: None,
        icon_min_side: None,
        icon_max_side: None,
        icon_min_aspect: None,
        icon_max_aspect: None,
    }
}

#[test]
fn parses_minimal_engine_config() {
    let cfg = config_from_overrides(switches_only(false, false), false, None);
    assert!(!cfg.run_ocr);
    assert!(!cfg.run_icon);
    assert_eq!(cfg.ocr_pack, DEFAULT_OCR_PACK);
    assert_eq!(cfg.icon_index_pack, DEFAULT_ICON_INDEX_PACK);
    assert_eq!(cfg.models_dir, "models");
    assert_eq!(cfg.layout.min_area, 100);
    assert_eq!(cfg.icon.template_size, 48);
}

#[test]
fn borrowed_mode_ignores_models_dir_in_json() {
    let mut o = switches_only(false, false);
    o.models_dir = Some("/should/be/ignored".to_string());
    let cfg = config_from_overrides(o, true, Some("/env/root"));
    assert_eq!(cfg.models_dir, ".");
}

#[test]
fn engine_overrides_replace_defaults() {
    let mut o = switches_only(true, false);
    o.models_dir = Some("/opt/models".to_string());
    o.ocr_pack = Some("ocr.custom".to_string());
    o.min_area = Some(250);
    o.ocr_max_side = Some(1280);
    o.ocr_min_confidence = Some(0.75f32.to_bits());
    o.icon_min_cosine = Some(Ratio { num: 4, den: 5 });
    o.icon_max_side = Some(64);
    o.runtime = Some(RuntimeConfig {
        onnx: Some(OnnxConfig { execution_providers: vec!["cpu".to_string()], ..Default::default() }),
        mnn: None,
    });
    let cfg = config_from_overrides(o, false, None);
    assert_eq!(cfg.models_dir, "/opt/models");
    assert_eq!(cfg.ocr_pack, "ocr.custom");
    assert_eq!(cfg.icon_index_pack, DEFAULT_ICON_INDEX_PACK);
    assert_eq!(cfg.layout.min_area, 250);
    assert_eq!(cfg.layout.min_hole_area, 2000);
    assert_eq!(cfg.ocr.max_side, 1280);
    assert_eq!(f32::from_bits(cfg.ocr.min_confidence), 0.75);
    assert_eq!(cfg.icon.min_cosine, Ratio { num: 4, den: 5 });
    assert_eq!(cfg.icon.max_side, 64);
    assert_eq!(cfg.icon.min_side, 12);
    assert!(cfg.runtime.onnx.is_some());
    assert!(cfg.run_ocr && !cfg.run_icon);
}

#[test]
fn environment_root_wins_over_document_root() {
    let mut o = switches_only(true, true);
    o.models_dir = Some("/opt/models".to_string());
    let cfg = config_from_overrides(o, false, Some("/env/root"));
    assert_eq!(cfg.models_dir, "/env/root");
}
