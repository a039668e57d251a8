use ui_extractor::config::{resolve_models_dir, ExtractConfig, DEFAULT_OCR_PACK};
use ui_extractor::manifest::{
    check_header, check_license_fields, check_license_files, LicenseFields, LicenseFileState,
    ManifestProblem,
};
use ui_extractor::runtime::{default_mnn_backend, default_mnn_precision, default_true};

fn license(spdx: &str, files: &[&str], upstream: bool) -> Option<LicenseFields> {
    Some(LicenseFields {
        spdx: spdx.to_string(),
        files: files.iter().map(|f| f.to_string()).collect(),
        upstream_present: upstream,
    })
}

#[test]
fn manifest_header_rules() {
    assert_eq!(check_header(1, "ocr.pack"), Ok(()));
    assert_eq!(check_header(2, "ocr.pack"), Err(ManifestProblem::UnsupportedSchema(2)));
    assert_eq!(check_header(1, ""), Err(ManifestProblem::MissingId));
}

#[test]
fn license_section_rules() {
    assert_eq!(check_license_fields(&None), Err(ManifestProblem::MissingLicense));
    assert_eq!(check_license_fields(&license("", &["LICENSE"], true)), Err(ManifestProblem::MissingSpdx));
    assert_eq!(check_license_fields(&license("MIT", &[], true)), Err(ManifestProblem::MissingLicenseFiles));
    assert_eq!(check_license_fields(&license("MIT", &["LICENSE"], false)), Err(ManifestProblem::MissingUpstream));
    assert_eq!(check_license_fields(&license("MIT", &["LICENSE"], true)), Ok(()));
}

#[test]
fn serde_style_defaults() {
    assert!(default_true());
    assert_eq!(default_mnn_backend(), "cpu");
    assert_eq!(default_mnn_precision(), "normal");
}

#[test]
fn models_root_resolution() {
    assert_eq!(resolve_models_dir(Some("x"), Some("/env")), "/env");
    assert_eq!(resolve_models_dir(Some("x"), Some("")), "x");
    assert_eq!(resolve_models_dir(None, None), "models");
    let c = ExtractConfig::default_with_env(None);
    assert_eq!(c.models_dir, "models");
    assert_eq!(c.ocr_pack, DEFAULT_OCR_PACK);
    assert!(c.run_ocr && c.run_icon);
    assert_eq!(c.layout.min_area, 100);
}

#[test]
fn license_files_checked_in_order() {
    let ok = LicenseFileState::File(12);
    assert_eq!(check_license_files(&vec![ok, ok]), Ok(()));
    assert_eq!(check_license_files(&vec![]), Ok(()));
    assert_eq!(
        check_license_files(&vec![ok, LicenseFileState::File(0), LicenseFileState::Missing]),
        Err(ManifestProblem::EmptyLicenseFile(1))
    );
    assert_eq!(
        check_license_files(&vec![LicenseFileState::Missing, LicenseFileState::File(0)]),
        Err(ManifestProblem::MissingLicenseFile(0))
    );
}
