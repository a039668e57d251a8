use ui_extractor::runtime::{maybe_append_cpu, resolved_eps_has_gpu, OnnxConfig, RuntimeConfig};
use ui_extractor::text::{comma_list, trim, truncate_label};

fn strings(v: &[&str]) -> Vec<String> {
    v.iter().map(|s| s.to_string()).collect()
}

#[test]
fn default_runtime_uses_cpu() {
    let cfg = RuntimeConfig::default();
    assert_eq!(cfg.resolved_eps(None), strings(&["cpu"]));
    assert!(!cfg.prefer_gpu_single_session(None));
    assert_eq!(cfg.mnn_config().backend, "cpu");
    assert_eq!(cfg.mnn_config().precision, "normal");
    assert_eq!(cfg.onnx_config().execution_providers, strings(&["auto"]));
}

#[test]
fn environment_list_is_used_with_auto() {
    let cfg = RuntimeConfig::default();
    assert_eq!(cfg.resolved_eps(Some(" cuda , ,directml")), strings(&["cuda", "directml", "cpu"]));
    assert!(cfg.prefer_gpu_single_session(Some("cuda")));
    assert_eq!(cfg.resolved_eps(Some(" , ")), strings(&["cpu"]));
}

#[test]
fn explicit_providers_win() {
    let mut onnx = OnnxConfig::default();
    onnx.execution_providers = strings(&["coreml"]);
    onnx.append_cpu_fallback = false;
    let cfg = RuntimeConfig { onnx: Some(onnx), mnn: None };
    assert_eq!(cfg.resolved_eps(Some("cuda")), strings(&["coreml"]));
    assert!(cfg.prefer_gpu_single_session(None));
}

#[test]
fn cpu_fallback_rules() {
    assert_eq!(maybe_append_cpu(strings(&["cuda"]), true), strings(&["cuda", "cpu"]));
    assert_eq!(maybe_append_cpu(strings(&["cpu", "cuda"]), true), strings(&["cpu", "cuda"]));
    assert_eq!(maybe_append_cpu(vec![], false), strings(&["cpu"]));
    assert!(resolved_eps_has_gpu(&strings(&["cpu", "coreml"])));
    assert!(!resolved_eps_has_gpu(&strings(&["cpu"])));
}

#[test]
fn text_helpers() {
    assert_eq!(trim("  a b \t\n"), "a b");
    assert_eq!(trim("\u{3000}x\u{a0}"), "x");
    assert_eq!(trim("   "), "");
    assert_eq!(comma_list("a,,b ,"), strings(&["a", "b"]));
    assert_eq!(truncate_label("  short  ", 24), "short");
    assert_eq!(truncate_label("abcdef", 3), "abc…");
}
