//! Extraction settings: model packs, the layout, recognition and icon thresholds,
//! and which passes run.
use vstd::prelude::*;

use crate::icon::IconConfig;
use crate::layout::LayoutConfig;
use crate::ocr::OcrConfig;
use crate::runtime::RuntimeConfig;
use crate::types::Ratio;

verus! {

/// The text recognition pack used when none is named (desktop runtime).
pub const DEFAULT_OCR_PACK: &'static str = "ocr.paddle.ppocr6-tiny.onnx.fp32";

/// The embedding model pack used when none is named (desktop runtime).
pub const DEFAULT_EMBED_PACK: &'static str = "embed.mobileclip2-s0.onnx.fp32";

/// The icon index pack used when none is named.
pub const DEFAULT_ICON_INDEX_PACK: &'static str = "icons.bundled.v1.mobileclip2-s0.int8";

/// The models root when neither the environment nor the caller names one.
pub const DEFAULT_MODELS_DIR: &'static str = "models";

/// The models root: `env` (the value of `LOCAL_INFER_ROOT`) when set and not
/// empty, else `explicit`, else `models`.
pub open spec fn spec_models_dir(explicit: Option<Seq<char>>, env: Option<Seq<char>>) -> Seq<char> {
    if env is Some && env->0.len() > 0 {
        env->0
    } else if explicit is Some {
        explicit->0
    } else {
        DEFAULT_MODELS_DIR@
    }
}

pub open spec fn opt_view(s: Option<&str>) -> Option<Seq<char>> {
    match s {
        Some(t) => Some(t@),
        None => None,
    }
}

/// Where model packs are looked up.
pub fn resolve_models_dir(explicit: Option<&str>, env: Option<&str>) -> (r: String)
    ensures
        r@ == spec_models_dir(opt_view(explicit), opt_view(env)),
{
    if let Some(root) = env {
        if root.unicode_len() > 0 {
            return String::from_str(root);
        }
    }
    match explicit {
        Some(p) => String::from_str(p),
        None => String::from_str(DEFAULT_MODELS_DIR),
    }
}

/// Everything an extraction is run with.
#[derive(Debug, Clone)]
pub struct ExtractConfig {
    pub models_dir: String,
    pub runtime: RuntimeConfig,
    pub ocr_pack: String,
    pub icon_index_pack: String,
    pub layout: LayoutConfig,
    pub ocr: OcrConfig,
    pub icon: IconConfig,
    pub run_ocr: bool,
    pub run_icon: bool,
    /// When set, the intermediate layout images are written under this directory.
    pub pipeline_dump_dir: Option<String>,
}

impl ExtractConfig {
    /// The default settings with the models root resolved from `env` (the value of
    /// `LOCAL_INFER_ROOT`): default packs and thresholds, both passes on, no dump.
    pub fn default_with_env(env: Option<&str>) -> (c: ExtractConfig)
        ensures
            c.models_dir@ == spec_models_dir(None, opt_view(env)),
            c.runtime.onnx is None,
            c.runtime.mnn is None,
            c.ocr_pack@ == DEFAULT_OCR_PACK@,
            c.icon_index_pack@ == DEFAULT_ICON_INDEX_PACK@,
            c.layout == LayoutConfig::default_spec(),
            c.ocr == (OcrConfig { min_confidence: 0x3f00_0000, max_side: 960 }),
            c.icon == IconConfig::default_spec(),
            c.run_ocr,
            c.run_icon,
            c.pipeline_dump_dir is None,
    {
        ExtractConfig {
            models_dir: resolve_models_dir(None, env),
            runtime: RuntimeConfig::default(),
            ocr_pack: String::from_str(DEFAULT_OCR_PACK),
            icon_index_pack: String::from_str(DEFAULT_ICON_INDEX_PACK),
            layout: LayoutConfig::default(),
            ocr: OcrConfig::default(),
            icon: IconConfig::default(),
            run_ocr: true,
            run_icon: true,
            pipeline_dump_dir: None,
        }
    }
}

/// Settings read from an engine configuration document; each absent value keeps
/// its default. Confidences are bit patterns of single-precision values.
#[derive(Debug, Clone)]
pub struct EngineOverrides {
    pub run_ocr: bool,
    pub run_icon: bool,
    pub models_dir: Option<String>,
    pub ocr_pack: Option<String>,
    pub icon_index_pack: Option<String>,
    pub runtime: Option<RuntimeConfig>,
    pub min_area: Option<i64>,
    pub ocr_max_side: Option<u32>,
    pub ocr_min_confidence: Option<u32>,
    pub icon_template_size: Option<u32>,
    pub icon_min_cosine: Option<Ratio>,
    pub icon_min_side: Option<i32>,
    pub icon_max_side: Option<i32>,
    pub icon_min_aspect: Option<Ratio>,
    pub icon_max_aspect: Option<Ratio>,
}

pub open spec fn or_default<T>(v: Option<T>, d: T) -> T {
    match v {
        Some(x) => x,
        None => d,
    }
}

pub open spec fn opt_string_view(s: Option<String>) -> Option<Seq<char>> {
    match s {
        Some(t) => Some(t@),
        None => None,
    }
}

/// The models root of an engine: `.` when it shares a registry that is already
/// open, else resolved from the document's `models_dir` and `env`.
pub open spec fn spec_engine_models_dir(o: EngineOverrides, borrowed_registry: bool, env: Option<Seq<char>>) -> Seq<char> {
    if borrowed_registry {
        "."@
    } else {
        spec_models_dir(opt_string_view(o.models_dir), env)
    }
}

fn take_or(v: Option<String>, d: &str) -> (r: String)
    ensures
        r@ == or_default(opt_string_view(v), d@),
{
    match v {
        Some(s) => s,
        None => String::from_str(d),
    }
}

fn copy_opt(v: &Option<String>) -> (r: Option<&str>)
    ensures
        opt_view(r) == opt_string_view(*v),
{
    match v {
        Some(s) => Some(s.as_str()),
        None => None,
    }
}

/// The settings of an engine configured by `o`: each value given replaces its
/// default (see `ExtractConfig::default_with_env`); nothing is dumped.
pub fn config_from_overrides(o: EngineOverrides, borrowed_registry: bool, env: Option<&str>) -> (c: ExtractConfig)
    ensures
        c.models_dir@ == spec_engine_models_dir(o, borrowed_registry, opt_view(env)),
        c.runtime == or_default(o.runtime, RuntimeConfig { onnx: None, mnn: None }),
        c.ocr_pack@ == or_default(opt_string_view(o.ocr_pack), DEFAULT_OCR_PACK@),
        c.icon_index_pack@ == or_default(opt_string_view(o.icon_index_pack), DEFAULT_ICON_INDEX_PACK@),
        c.layout == (LayoutConfig {
            min_area: or_default(o.min_area, LayoutConfig::default_spec().min_area),
            ..LayoutConfig::default_spec()
        }),
        c.ocr == (OcrConfig {
            min_confidence: or_default(o.ocr_min_confidence, 0x3f00_0000u32),
            max_side: or_default(o.ocr_max_side, 960u32),
        }),
        c.icon == (IconConfig {
            template_size: or_default(o.icon_template_size, IconConfig::default_spec().template_size),
            min_cosine: or_default(o.icon_min_cosine, IconConfig::default_spec().min_cosine),
            min_side: or_default(o.icon_min_side, IconConfig::default_spec().min_side),
            max_side: or_default(o.icon_max_side, IconConfig::default_spec().max_side),
            min_aspect: or_default(o.icon_min_aspect, IconConfig::default_spec().min_aspect),
            max_aspect: or_default(o.icon_max_aspect, IconConfig::default_spec().max_aspect),
        }),
        c.run_ocr == o.run_ocr,
        c.run_icon == o.run_icon,
        c.pipeline_dump_dir is None,
{
    let ghost o0 = o;
    let mut layout = LayoutConfig::default();
    if let Some(v) = o.min_area {
        layout.min_area = v;
    }
    let mut ocr = OcrConfig::default();
    if let Some(v) = o.ocr_max_side {
        ocr.max_side = v;
    }
    if let Some(v) = o.ocr_min_confidence {
        ocr.min_confidence = v;
    }
    let mut icon = IconConfig::default();
    if let Some(v) = o.icon_template_size {
        icon.template_size = v;
    }
    if let Some(v) = o.icon_min_cosine {
        icon.min_cosine = v;
    }
    if let Some(v) = o.icon_min_side {
        icon.min_side = v;
    }
    if let Some(v) = o.icon_max_side {
        icon.max_side = v;
    }
    if let Some(v) = o.icon_min_aspect {
        icon.min_aspect = v;
    }
    if let Some(v) = o.icon_max_aspect {
        icon.max_aspect = v;
    }
    let models_dir = if borrowed_registry {
        String::from_str(".")
    } else {
        resolve_models_dir(copy_opt(&o.models_dir), env)
    };
    let runtime = match o.runtime {
        Some(r) => r,
        None => RuntimeConfig::default(),
    };
    ExtractConfig {
        models_dir,
        runtime,
        ocr_pack: take_or(o.ocr_pack, DEFAULT_OCR_PACK),
        icon_index_pack: take_or(o.icon_index_pack, DEFAULT_ICON_INDEX_PACK),
        layout,
        ocr,
        icon,
        run_ocr: o.run_ocr,
        run_icon: o.run_icon,
        pipeline_dump_dir: None,
    }
}

} // verus!
