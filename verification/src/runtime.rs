//! Inference runtime settings: which execution providers the ONNX runtime is
//! given, and whether one shared session is preferred.
use vstd::prelude::*;

use crate::text::{comma_list, spec_comma_list, string_views};

verus! {

/// Settings of the MNN backend.
#[derive(Debug, Clone)]
pub struct MnnConfig {
    pub backend: String,
    pub num_thread: Option<u32>,
    pub precision: String,
}

/// Settings of the ONNX runtime.
#[derive(Debug, Clone)]
pub struct OnnxConfig {
    pub execution_providers: Vec<String>,
    pub intra_threads: Option<u32>,
    pub inter_threads: Option<u32>,
    pub append_cpu_fallback: bool,
    pub gpu_single_session: bool,
}

/// Settings of both backends; each may be absent.
#[derive(Debug, Clone)]
pub struct RuntimeConfig {
    pub onnx: Option<OnnxConfig>,
    pub mnn: Option<MnnConfig>,
}

/// The MNN backend used when none is named.
pub fn default_mnn_backend() -> (s: String)
    ensures
        s@ == "cpu"@,
{
    String::from_str("cpu")
}

/// The MNN precision used when none is named.
pub fn default_mnn_precision() -> (s: String)
    ensures
        s@ == "normal"@,
{
    String::from_str("normal")
}

/// The value of a flag that is on unless set.
pub fn default_true() -> (b: bool)
    ensures
        b,
{
    true
}

fn copy_strings(v: &Vec<String>) -> (r: Vec<String>)
    ensures
        string_views(r@) == string_views(v@),
{
    let mut r: Vec<String> = Vec::new();
    let mut i: usize = 0;
    while i < v.len()
        invariant
            i <= v@.len(),
            r@.len() == i,
            string_views(r@) == string_views(v@).take(i as int),
        decreases v@.len() - i,
    {
        let c = v[i].clone();
        assert(c@ == v@[i as int]@);
        let ghost before = r@;
        r.push(c);
        assert forall|k: int| 0 <= k < i + 1 implies #[trigger] string_views(r@)[k] == string_views(
            v@,
        ).take(i + 1)[k] by {
            if k < i {
                assert(r@[k] == before[k]);
                assert(string_views(before)[k] == string_views(v@).take(i as int)[k]);
            }
        }
        assert(string_views(r@) =~= string_views(v@).take(i + 1));
        i = i + 1;
    }
    assert(string_views(v@).take(v@.len() as int) =~= string_views(v@));
    r
}

impl Default for MnnConfig {
    /// The CPU backend, no thread count, normal precision.
    fn default() -> (c: MnnConfig)
        ensures
            c.backend@ == "cpu"@,
            c.num_thread is None,
            c.precision@ == "normal"@,
    {
        MnnConfig {
            backend: default_mnn_backend(),
            num_thread: None,
            precision: default_mnn_precision(),
        }
    }
}

impl MnnConfig {

    pub fn copy(&self) -> (c: MnnConfig)
        ensures
            c.backend@ == self.backend@,
            c.num_thread == self.num_thread,
            c.precision@ == self.precision@,
    {
        MnnConfig {
            backend: self.backend.clone(),
            num_thread: self.num_thread,
            precision: self.precision.clone(),
        }
    }
}

impl Default for OnnxConfig {
    /// Providers chosen automatically, no thread counts, CPU fallback appended,
    /// one session on a GPU.
    fn default() -> (c: OnnxConfig)
        ensures
            string_views(c.execution_providers@) == seq!["auto"@],
            c.intra_threads is None,
            c.inter_threads is None,
            c.append_cpu_fallback,
            c.gpu_single_session,
    {
        let mut eps: Vec<String> = Vec::new();
        eps.push(String::from_str("auto"));
        assert(string_views(eps@) =~= seq!["auto"@]);
        OnnxConfig {
            execution_providers: eps,
            intra_threads: None,
            inter_threads: None,
            append_cpu_fallback: true,
            gpu_single_session: true,
        }
    }
}

impl OnnxConfig {

    pub fn copy(&self) -> (c: OnnxConfig)
        ensures
            string_views(c.execution_providers@) == string_views(self.execution_providers@),
            c.intra_threads == self.intra_threads,
            c.inter_threads == self.inter_threads,
            c.append_cpu_fallback == self.append_cpu_fallback,
            c.gpu_single_session == self.gpu_single_session,
    {
        OnnxConfig {
            execution_providers: copy_strings(&self.execution_providers),
            intra_threads: self.intra_threads,
            inter_threads: self.inter_threads,
            append_cpu_fallback: self.append_cpu_fallback,
            gpu_single_session: self.gpu_single_session,
        }
    }
}

/// The provider list with `cpu` appended when asked for and missing, and `cpu`
/// alone in place of an empty list.
pub open spec fn spec_maybe_append_cpu(eps: Seq<Seq<char>>, append: bool) -> Seq<Seq<char>> {
    let with = if append && !eps.contains("cpu"@) { eps.push("cpu"@) } else { eps };
    if with.len() == 0 { seq!["cpu"@] } else { with }
}

fn contains_str(v: &Vec<String>, s: &str) -> (r: bool)
    ensures
        r == string_views(v@).contains(s@),
{
    let target = String::from_str(s);
    let mut i: usize = 0;
    while i < v.len()
        invariant
            i <= v@.len(),
            target@ == s@,
            forall|k: int| 0 <= k < i ==> v@[k]@ != s@,
        decreases v@.len() - i,
    {
        if v[i] == target {
            assert(string_views(v@)[i as int] == s@);
            return true;
        }
        i = i + 1;
    }
    assert forall|k: int| 0 <= k < string_views(v@).len() implies string_views(v@)[k] != s@ by {
        assert(v@[k]@ != s@);
    }
    false
}

/// `eps`, with `cpu` appended when `append` is set and it is missing, and `cpu`
/// alone in place of an empty list.
pub fn maybe_append_cpu(eps: Vec<String>, append: bool) -> (r: Vec<String>)
    ensures
        string_views(r@) == spec_maybe_append_cpu(string_views(eps@), append),
{
    let mut eps = eps;
    let ghost orig = string_views(eps@);
    if append && !contains_str(&eps, "cpu") {
        eps.push(String::from_str("cpu"));
        assert(string_views(eps@) =~= orig.push("cpu"@));
    }
    if eps.len() == 0 {
        eps.push(String::from_str("cpu"));
        assert(string_views(eps@) =~= seq!["cpu"@]);
    }
    eps
}

/// Some provider is a GPU one: `directml`, `coreml` or `cuda`.
pub open spec fn spec_has_gpu(eps: Seq<Seq<char>>) -> bool {
    eps.contains("directml"@) || eps.contains("coreml"@) || eps.contains("cuda"@)
}

/// Whether the provider list names a GPU provider.
pub fn resolved_eps_has_gpu(eps: &Vec<String>) -> (r: bool)
    ensures
        r == spec_has_gpu(string_views(eps@)),
{
    contains_str(eps, "directml") || contains_str(eps, "coreml") || contains_str(eps, "cuda")
}

impl Default for RuntimeConfig {
    /// No settings for either backend.
    fn default() -> (c: RuntimeConfig)
        ensures
            c.onnx is None,
            c.mnn is None,
    {
        RuntimeConfig { onnx: None, mnn: None }
    }
}

impl RuntimeConfig {

    /// The ONNX settings, or their defaults when absent.
    pub fn onnx_config(&self) -> (c: OnnxConfig)
        ensures
            match self.onnx {
                Some(o) => string_views(c.execution_providers@) == string_views(
                    o.execution_providers@,
                ) && c.intra_threads == o.intra_threads && c.inter_threads == o.inter_threads
                    && c.append_cpu_fallback == o.append_cpu_fallback && c.gpu_single_session
                    == o.gpu_single_session,
                None => string_views(c.execution_providers@) == seq!["auto"@] && c.intra_threads
                    is None && c.inter_threads is None && c.append_cpu_fallback
                    && c.gpu_single_session,
            },
    {
        match &self.onnx {
            Some(o) => o.copy(),
            None => OnnxConfig::default(),
        }
    }

    /// The MNN settings, or their defaults when absent.
    pub fn mnn_config(&self) -> (c: MnnConfig)
        ensures
            match self.mnn {
                Some(m) => c.backend@ == m.backend@ && c.num_thread == m.num_thread && c.precision@
                    == m.precision@,
                None => c.backend@ == "cpu"@ && c.num_thread is None && c.precision@ == "normal"@,
            },
    {
        match &self.mnn {
            Some(m) => m.copy(),
            None => MnnConfig::default(),
        }
    }

    /// The effective ONNX provider list (given explicitly, from default settings,
    /// or with `auto`): `providers` and `append` are the ONNX settings' list and
    /// fallback flag.
    pub open spec fn spec_resolved_eps(
        providers: Seq<Seq<char>>,
        append: bool,
        env: Option<Seq<char>>,
    ) -> Seq<Seq<char>> {
        if providers.len() > 0 && !providers.contains("auto"@) {
            spec_maybe_append_cpu(providers, append)
        } else if env is Some && spec_comma_list(env->0).len() > 0 {
            spec_maybe_append_cpu(spec_comma_list(env->0), append)
        } else {
            spec_maybe_append_cpu(Seq::empty(), append)
        }
    }

    /// The ONNX execution providers to use. An explicit list without `auto` is
    /// used as it is; otherwise `env` (the value of `LOCAL_INFER_ORT_EP`, if set)
    /// is read as a comma-separated list; `cpu` is appended as the ONNX settings
    /// ask, and stands alone when nothing else is named.
    pub fn resolved_eps(&self, env: Option<&str>) -> (r: Vec<String>)
        ensures
            ({
                let (providers, append) = match self.onnx {
                    Some(o) => (string_views(o.execution_providers@), o.append_cpu_fallback),
                    None => (seq!["auto"@], true),
                };
                string_views(r@) == Self::spec_resolved_eps(
                    providers,
                    append,
                    match env {
                        Some(e) => Some(e@),
                        None => None,
                    },
                )
            }),
    {
        let onnx = self.onnx_config();
        if onnx.execution_providers.len() > 0 && !contains_str(&onnx.execution_providers, "auto") {
            return maybe_append_cpu(onnx.execution_providers, onnx.append_cpu_fallback);
        }
        if let Some(raw) = env {
            let eps = comma_list(raw);
            if eps.len() > 0 {
                return maybe_append_cpu(eps, onnx.append_cpu_fallback);
            }
        }
        let empty: Vec<String> = Vec::new();
        assert(string_views(empty@) =~= Seq::<Seq<char>>::empty());
        maybe_append_cpu(empty, onnx.append_cpu_fallback)
    }

    /// One shared session is preferred when the ONNX settings ask for it and a GPU
    /// provider is in the effective list.
    pub fn prefer_gpu_single_session(&self, env: Option<&str>) -> (r: bool)
        ensures
            ({
                let (providers, append, single) = match self.onnx {
                    Some(o) => (
                        string_views(o.execution_providers@),
                        o.append_cpu_fallback,
                        o.gpu_single_session,
                    ),
                    None => (seq!["auto"@], true, true),
                };
                r == (single && spec_has_gpu(
                    Self::spec_resolved_eps(
                        providers,
                        append,
                        match env {
                            Some(e) => Some(e@),
                            None => None,
                        },
                    ),
                ))
            }),
    {
        let single = self.onnx_config().gpu_single_session;
        if !single {
            return false;
        }
        let eps = self.resolved_eps(env);
        resolved_eps_has_gpu(&eps)
    }
}


/// The effective provider list is never empty, and holds `cpu` whenever the CPU
/// fallback is asked for.
pub proof fn lemma_resolved_eps_usable(providers: Seq<Seq<char>>, append: bool, env: Option<Seq<char>>)
    ensures
        RuntimeConfig::spec_resolved_eps(providers, append, env).len() > 0,
        append ==> RuntimeConfig::spec_resolved_eps(providers, append, env).contains("cpu"@),
{
    let r = RuntimeConfig::spec_resolved_eps(providers, append, env);
    let eps = if providers.len() > 0 && !providers.contains("auto"@) {
        providers
    } else if env is Some && spec_comma_list(env->0).len() > 0 {
        spec_comma_list(env->0)
    } else {
        Seq::empty()
    };
    assert(r == spec_maybe_append_cpu(eps, append));
    if append {
        if eps.contains("cpu"@) {
            if eps.len() > 0 {
                assert(r == eps);
            }
        } else {
            assert(eps.push("cpu"@)[eps.len() as int] == "cpu"@);
        }
    }
    if r.len() == 0 {
        assert(seq!["cpu"@][0] == "cpu"@);
    }
}

} // verus!
