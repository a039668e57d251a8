//! The icon templates of an embedding index: their labels (`namespace:stem`, or
//! the bare stem in a flat directory), their order by label, and the rejection of
//! labels that differ only in ASCII letter case.
use vstd::prelude::*;
use crate::types::{max_int, min_int, ExtractError};

verus! {

/// A template image file: its file stem (`None` when the name is not UTF-8) and
/// its path.
#[derive(Debug, Clone)]
pub struct PngFile {
    pub stem: Option<String>,
    pub path: String,
}

/// A template to embed: its label and its path.
#[derive(Debug, Clone)]
pub struct PngEmbedJob {
    pub name: String,
    pub path: String,
}

/// Why the template list cannot be built.
#[derive(Debug, Clone)]
pub enum JobsProblem {
    /// The file at this path has no UTF-8 stem.
    InvalidName(String),
    /// Two templates have this label, up to ASCII letter case.
    DuplicateLabel(String),
    /// No template was found.
    NoPngFiles,
}

impl JobsProblem {
    /// The sentence that reports the problem; `root` is the template directory.
    pub open spec fn spec_text(&self, root: Seq<char>) -> Seq<char> {
        match self {
            JobsProblem::InvalidName(p) => "invalid PNG file name: "@ + p@,
            JobsProblem::DuplicateLabel(l) => "duplicate icon label in embedding index: "@ + l@,
            JobsProblem::NoPngFiles => "no PNG files under "@ + root
                + " (expected flat *.png or <namespace>/*.png)"@,
        }
    }

    /// The problem as an image error of the extraction, for templates under `root`.
    pub fn to_error(&self, root: &str) -> (e: ExtractError)
        ensures
            e matches ExtractError::Image(m) && m@ == self.spec_text(root@),
    {
        match self {
            JobsProblem::InvalidName(p) => {
                let mut m = String::from_str("invalid PNG file name: ");
                m.append(p.as_str());
                ExtractError::Image(m)
            },
            JobsProblem::DuplicateLabel(l) => {
                let mut m = String::from_str("duplicate icon label in embedding index: ");
                m.append(l.as_str());
                ExtractError::Image(m)
            },
            JobsProblem::NoPngFiles => {
                let mut m = String::from_str("no PNG files under ");
                m.append(root);
                m.append(" (expected flat *.png or <namespace>/*.png)");
                ExtractError::Image(m)
            },
        }
    }
}

/// `a` sorts before or equal to `b`, comparing characters in order.
pub open spec fn lex_le(a: Seq<char>, b: Seq<char>) -> bool
    decreases a.len(),
{
    if a.len() == 0 {
        true
    } else if b.len() == 0 {
        false
    } else if a[0] != b[0] {
        a[0] < b[0]
    } else {
        lex_le(a.skip(1), b.skip(1))
    }
}

/// Any two labels are ordered one way or the other.
proof fn lemma_lex_total(a: Seq<char>, b: Seq<char>)
    ensures
        lex_le(a, b) || lex_le(b, a),
    decreases a.len(),
{
    if a.len() > 0 && b.len() > 0 && a[0] == b[0] {
        lemma_lex_total(a.skip(1), b.skip(1));
    }
}

/// The label order is transitive.
proof fn lemma_lex_transitive(a: Seq<char>, b: Seq<char>, c: Seq<char>)
    requires
        lex_le(a, b),
        lex_le(b, c),
    ensures
        lex_le(a, c),
    decreases a.len(),
{
    if a.len() > 0 && b.len() > 0 && c.len() > 0 && a[0] == b[0] && b[0] == c[0] {
        lemma_lex_transitive(a.skip(1), b.skip(1), c.skip(1));
    }
}

/// A character with ASCII capitals folded to small letters.
pub open spec fn fold_ascii(c: char) -> int {
    if 'A' <= c <= 'Z' {
        (c as u32) + 32
    } else {
        c as u32 as int
    }
}

/// Equal up to ASCII letter case.
pub open spec fn eq_ignore_ascii_case(a: Seq<char>, b: Seq<char>) -> bool {
    a.len() == b.len() && forall|k: int| 0 <= k < a.len() ==> #[trigger] fold_ascii(a[k])
        == fold_ascii(b[k])
}

/// The label of a template: `ns:stem` in a namespace directory, the stem alone in
/// a flat directory; `None` without a UTF-8 stem.
pub open spec fn label_of(ns: Option<Seq<char>>, f: PngFile) -> Option<Seq<char>> {
    match f.stem {
        None => None,
        Some(s) => match ns {
            Some(n) => Some(n + seq![':'] + s@),
            None => Some(s@),
        },
    }
}

/// The templates in the order they are found: with namespace directories, each
/// directory's files in turn; otherwise the files of the flat directory.
pub open spec fn found(namespaces: Seq<(String, Vec<PngFile>)>, flat: Seq<PngFile>) -> Seq<
    (Option<Seq<char>>, Seq<char>),
> {
    if has_namespace_files(namespaces) {
        namespaced(namespaces, namespaces.len() as int)
    } else {
        Seq::new(flat.len(), |i: int| (label_of(None, flat[i]), flat[i].path@))
    }
}

/// Some namespace directory holds a template; the flat files are then ignored.
pub open spec fn has_namespace_files(namespaces: Seq<(String, Vec<PngFile>)>) -> bool {
    exists|k: int| 0 <= k < namespaces.len() && (#[trigger] namespaces[k]).1@.len() > 0
}

/// The templates of the first `n` namespace directories, directory by directory.
pub open spec fn namespaced(namespaces: Seq<(String, Vec<PngFile>)>, n: int) -> Seq<
    (Option<Seq<char>>, Seq<char>),
>
    decreases n,
{
    if n <= 0 {
        Seq::empty()
    } else {
        let (ns, files) = namespaces[n - 1];
        namespaced(namespaces, n - 1) + Seq::new(
            files@.len(),
            |i: int| (label_of(Some(ns@), files@[i]), files@[i].path@),
        )
    }
}

/// A job as its label and path.
pub open spec fn job_view(j: PngEmbedJob) -> (Seq<char>, Seq<char>) {
    (j.name@, j.path@)
}

pub open spec fn job_views(js: Seq<PngEmbedJob>) -> Seq<(Seq<char>, Seq<char>)> {
    Seq::new(js.len(), |i: int| job_view(js[i]))
}

/// Labels in non-decreasing order.
pub open spec fn sorted_by_label(js: Seq<(Seq<char>, Seq<char>)>) -> bool {
    forall|i: int, j: int| 0 <= i < j < js.len() ==> lex_le(#[trigger] js[i].0, #[trigger] js[j].0)
}

/// Template `j` has an earlier template with the same label up to ASCII case.
pub open spec fn has_earlier_twin(js: Seq<(Seq<char>, Seq<char>)>, j: int) -> bool {
    exists|i: int| 0 <= i < j && eq_ignore_ascii_case(#[trigger] js[i].0, js[j].0)
}

/// `j` is the first template that has an earlier twin.
pub open spec fn first_twin(js: Seq<(Seq<char>, Seq<char>)>, j: int) -> bool {
    &&& 0 <= j < js.len()
    &&& has_earlier_twin(js, j)
    &&& forall|k: int| 0 <= k < j ==> !has_earlier_twin(js, k)
}

/// `sorted` holds the found templates (all with labels) ordered by label.
pub open spec fn sorts_found(found: Seq<(Option<Seq<char>>, Seq<char>)>, sorted: Seq<(Seq<char>, Seq<char>)>) -> bool {
    &&& sorted_by_label(sorted)
    &&& sorted.to_multiset() == Seq::new(found.len(), |i: int| (found[i].0->0, found[i].1)).to_multiset()
}

pub(crate) fn chars_of(s: &str) -> (r: Vec<char>)
    ensures
        r@ == s@,
{
    let n = s.unicode_len();
    let mut r: Vec<char> = Vec::new();
    let mut i: usize = 0;
    while i < n
        invariant
            n == s@.len(),
            i <= n,
            r@ == s@.take(i as int),
        decreases n - i,
    {
        r.push(s.get_char(i));
        assert(r@ =~= s@.take(i + 1));
        i = i + 1;
    }
    assert(s@.take(n as int) =~= s@);
    r
}

fn chars_le(a: &Vec<char>, b: &Vec<char>) -> (r: bool)
    ensures
        r == lex_le(a@, b@),
{
    let mut i: usize = 0;
    assert(a@.skip(0) =~= a@);
    assert(b@.skip(0) =~= b@);
    while i < a.len() && i < b.len() && a[i] == b[i]
        invariant
            i <= a@.len(),
            i <= b@.len(),
            lex_le(a@, b@) == lex_le(a@.skip(i as int), b@.skip(i as int)),
        decreases a@.len() - i,
    {
        assert(a@.skip(i as int).skip(1) =~= a@.skip(i + 1));
        assert(b@.skip(i as int).skip(1) =~= b@.skip(i + 1));
        i = i + 1;
    }
    if i == a.len() {
        true
    } else if i == b.len() {
        false
    } else {
        assert(a@.skip(i as int)[0] == a@[i as int]);
        assert(b@.skip(i as int)[0] == b@[i as int]);
        a[i] < b[i]
    }
}

fn fold(c: char) -> (r: u32)
    ensures
        r == fold_ascii(c),
{
    if 'A' <= c && c <= 'Z' {
        (c as u32) + 32
    } else {
        c as u32
    }
}

pub(crate) fn chars_eq_ignore_case(a: &Vec<char>, b: &Vec<char>) -> (r: bool)
    ensures
        r == eq_ignore_ascii_case(a@, b@),
{
    if a.len() != b.len() {
        return false;
    }
    let mut i: usize = 0;
    while i < a.len()
        invariant
            a@.len() == b@.len(),
            i <= a@.len(),
            forall|k: int| 0 <= k < i ==> #[trigger] fold_ascii(a@[k]) == fold_ascii(b@[k]),
        decreases a@.len() - i,
    {
        if fold(a[i]) != fold(b[i]) {
            return false;
        }
        i = i + 1;
    }
    true
}


/// The found templates with their labels, all of which exist.
pub open spec fn named(found: Seq<(Option<Seq<char>>, Seq<char>)>) -> Seq<(Seq<char>, Seq<char>)> {
    Seq::new(found.len(), |i: int| (found[i].0->0, found[i].1))
}

pub open spec fn all_named(found: Seq<(Option<Seq<char>>, Seq<char>)>) -> bool {
    forall|k: int| 0 <= k < found.len() ==> (#[trigger] found[k]).0 is Some
}

/// Template `k` is the first one without a UTF-8 stem.
pub open spec fn first_unnamed(found: Seq<(Option<Seq<char>>, Seq<char>)>, k: int) -> bool {
    &&& 0 <= k < found.len()
    &&& found[k].0 is None
    &&& forall|j: int| 0 <= j < k ==> (#[trigger] found[j]).0 is Some
}

proof fn lemma_namespaced_prefix(namespaces: Seq<(String, Vec<PngFile>)>, k: int, n: int)
    requires
        0 <= k <= n <= namespaces.len(),
    ensures
        namespaced(namespaces, n).take(namespaced(namespaces, k).len() as int) == namespaced(
            namespaces,
            k,
        ),
        namespaced(namespaces, k).len() <= namespaced(namespaces, n).len(),
    decreases n - k,
{
    if k < n {
        lemma_namespaced_prefix(namespaces, k, n - 1);
        let a = namespaced(namespaces, n - 1);
        let b = namespaced(namespaces, n);
        assert(b.take(a.len() as int) =~= a);
        assert(b.take(namespaced(namespaces, k).len() as int) =~= a.take(
            namespaced(namespaces, k).len() as int,
        ));
    } else {
        assert(namespaced(namespaces, n).take(namespaced(namespaces, n).len() as int) =~= namespaced(
            namespaces,
            n,
        ));
    }
}

fn label(ns: Option<&String>, f: &PngFile) -> (r: Option<String>)
    ensures
        match r {
            Some(l) => label_of(
                match ns {
                    Some(n) => Some(n@),
                    None => None,
                },
                *f,
            ) == Some(l@),
            None => label_of(
                match ns {
                    Some(n) => Some(n@),
                    None => None,
                },
                *f,
            ) is None,
        },
{
    match &f.stem {
        None => None,
        Some(stem) => match ns {
            Some(n) => {
                let mut l = n.clone();
                let colon = ":";
                proof {
                    reveal_strlit(":");
                }
                l.append(colon);
                l.append(stem.as_str());
                Some(l)
            },
            None => Some(stem.clone()),
        },
    }
}

/// The templates with their labels, in the order found; the path of the first one
/// without a UTF-8 stem otherwise.
fn labelled_jobs(namespaces: &Vec<(String, Vec<PngFile>)>, flat: &Vec<PngFile>) -> (r: Result<
    Vec<PngEmbedJob>,
    String,
>)
    ensures
        match r {
            Ok(js) => all_named(found(namespaces@, flat@)) && job_views(js@) == named(
                found(namespaces@, flat@),
            ),
            Err(p) => exists|k: int|
                first_unnamed(found(namespaces@, flat@), k) && p@ == found(namespaces@, flat@)[k].1,
        },
{
    let ghost f = found(namespaces@, flat@);
    let mut jobs: Vec<PngEmbedJob> = Vec::new();
    let mut any = false;
    let mut q: usize = 0;
    while q < namespaces.len()
        invariant
            q <= namespaces@.len(),
            any == exists|k: int| 0 <= k < q && (#[trigger] namespaces@[k]).1@.len() > 0,
        decreases namespaces@.len() - q,
    {
        if namespaces[q].1.len() > 0 {
            any = true;
        }
        q = q + 1;
    }
    if !any {
        let mut i: usize = 0;
        while i < flat.len()
            invariant
                !has_namespace_files(namespaces@),
                f == found(namespaces@, flat@),
                f.len() == flat@.len(),
                i <= flat@.len(),
                forall|k: int| 0 <= k < i ==> (#[trigger] f[k]).0 is Some,
                job_views(jobs@) == named(f).take(i as int),
            decreases flat@.len() - i,
        {
            match label(None, &flat[i]) {
                Some(l) => {
                    let ghost before = jobs@;
                    let job = PngEmbedJob { name: l, path: flat[i].path.clone() };
                    assert(job_view(job) == named(f)[i as int]);
                    jobs.push(job);
                    assert(job_views(jobs@) =~= job_views(before).push(job_view(job)));
                    assert(named(f).take(i + 1) =~= named(f).take(i as int).push(named(f)[i as int]));
                },
                None => {
                    assert(first_unnamed(f, i as int));
                    return Err(flat[i].path.clone());
                },
            }
            i = i + 1;
        }
        assert(named(f).take(flat@.len() as int) =~= named(f));
        return Ok(jobs);
    }
    let mut k: usize = 0;
    while k < namespaces.len()
        invariant
            has_namespace_files(namespaces@),
            f == found(namespaces@, flat@),
            f == namespaced(namespaces@, namespaces@.len() as int),
            k <= namespaces@.len(),
            all_named(namespaced(namespaces@, k as int)),
            job_views(jobs@) == named(namespaced(namespaces@, k as int)),
        decreases namespaces@.len() - k,
    {
        let ns = &namespaces[k].0;
        let files = &namespaces[k].1;
        let ghost head = namespaced(namespaces@, k as int);
        let ghost block = Seq::new(
            files@.len(),
            |i: int| (label_of(Some(ns@), files@[i]), files@[i].path@),
        );
        assert(namespaced(namespaces@, k + 1) == head + block);
        proof {
            lemma_namespaced_prefix(namespaces@, k + 1, namespaces@.len() as int);
        }
        let mut i: usize = 0;
        while i < files.len()
            invariant
                f == found(namespaces@, flat@),
                head == namespaced(namespaces@, k as int),
                block.len() == files@.len(),
                block == Seq::new(
                    files@.len(),
                    |i: int| (label_of(Some(ns@), files@[i]), files@[i].path@),
                ),
                f.take((head + block).len() as int) == head + block,
                (head + block).len() <= f.len(),
                i <= files@.len(),
                all_named(head),
                forall|q: int| 0 <= q < i ==> (#[trigger] block[q]).0 is Some,
                job_views(jobs@) == named(head) + named(block).take(i as int),
            decreases files@.len() - i,
        {
            match label(Some(ns), &files[i]) {
                Some(l) => {
                    let ghost before = jobs@;
                    let job = PngEmbedJob { name: l, path: files[i].path.clone() };
                    assert(job_view(job) == named(block)[i as int]);
                    jobs.push(job);
                    assert(job_views(jobs@) =~= job_views(before).push(job_view(job)));
                    assert(named(block).take(i + 1) =~= named(block).take(i as int).push(
                        named(block)[i as int],
                    ));
                    assert(named(head) + named(block).take(i + 1) =~= (named(head) + named(
                        block,
                    ).take(i as int)).push(named(block)[i as int]));
                },
                None => {
                    let ghost at = head.len() + i;
                    assert(f[at] == (head + block)[at]) by {
                        assert(f.take((head + block).len() as int)[at] == f[at]);
                    }
                    assert forall|j: int| 0 <= j < at implies (#[trigger] f[j]).0 is Some by {
                        assert(f.take((head + block).len() as int)[j] == f[j]);
                        if j < head.len() {
                            assert((head + block)[j] == head[j]);
                        } else {
                            assert((head + block)[j] == block[j - head.len()]);
                        }
                    }
                    assert(first_unnamed(f, at));
                    let p = files[i].path.clone();
                    assert(p@ == f[at].1);
                    return Err(p);
                },
            }
            i = i + 1;
        }
        assert(named(head) + named(block) =~= named(head + block));
        assert(named(block).take(files@.len() as int) =~= named(block));
        assert forall|q: int| 0 <= q < (head + block).len() implies (#[trigger] (head + block)[q]).0 is Some by {
            if q >= head.len() {
                assert((head + block)[q] == block[q - head.len()]);
            }
        }
        k = k + 1;
    }
    Ok(jobs)
}

fn copy_job(j: &PngEmbedJob) -> (r: PngEmbedJob)
    ensures
        job_view(r) == job_view(*j),
{
    PngEmbedJob { name: j.name.clone(), path: j.path.clone() }
}

/// The jobs ordered by label, each with its label's characters; jobs with equal
/// labels keep their order.
fn sort_by_label(jobs: &Vec<PngEmbedJob>) -> (r: (Vec<PngEmbedJob>, Vec<Vec<char>>))
    ensures
        sorted_by_label(job_views(r.0@)),
        job_views(r.0@).to_multiset() == job_views(jobs@).to_multiset(),
        r.1@.len() == r.0@.len(),
        forall|q: int| 0 <= q < r.1@.len() ==> (#[trigger] r.1@[q])@ == r.0@[q].name@,
{
    let mut out: Vec<PngEmbedJob> = Vec::new();
    let mut keys: Vec<Vec<char>> = Vec::new();
    let mut i: usize = 0;
    assert(job_views(out@) =~= job_views(jobs@.take(0)));
    while i < jobs.len()
        invariant
            i <= jobs@.len(),
            keys@.len() == out@.len(),
            forall|q: int| 0 <= q < keys@.len() ==> (#[trigger] keys@[q])@ == out@[q].name@,
            sorted_by_label(job_views(out@)),
            job_views(out@).to_multiset() == job_views(jobs@.take(i as int)).to_multiset(),
        decreases jobs@.len() - i,
    {
        let job = copy_job(&jobs[i]);
        let key = chars_of(job.name.as_str());
        let ghost views = job_views(out@);
        let mut p: usize = 0;
        while p < out.len() && chars_le(&keys[p], &key)
            invariant
                p <= out@.len(),
                keys@.len() == out@.len(),
                views == job_views(out@),
                forall|q: int| 0 <= q < keys@.len() ==> (#[trigger] keys@[q])@ == out@[q].name@,
                forall|q: int| 0 <= q < p ==> lex_le(#[trigger] views[q].0, key@),
            decreases out@.len() - p,
        {
            p = p + 1;
        }
        proof {
            assert forall|q: int| p <= q < views.len() implies lex_le(key@, #[trigger] views[q].0) by {
                assert(keys@[p as int]@ == views[p as int].0);
                lemma_lex_total(views[p as int].0, key@);
                if q > p {
                    lemma_lex_transitive(key@, views[p as int].0, views[q].0);
                }
            }
        }
        let ghost v = job_view(job);
        let ghost old_keys = keys@;
        let ghost old_out = out@;
        out.insert(p, job);
        keys.insert(p, key);
        proof {
            let nv = job_views(out@);
            assert(nv =~= views.insert(p as int, v));
            assert forall|a: int, b: int| 0 <= a < b < nv.len() implies lex_le(
                #[trigger] nv[a].0,
                #[trigger] nv[b].0,
            ) by {
                if b < p {
                    assert(nv[a] == views[a] && nv[b] == views[b]);
                } else if b == p {
                    assert(nv[a] == views[a]);
                } else if a < p {
                    assert(nv[a] == views[a] && nv[b] == views[b - 1]);
                    lemma_lex_transitive(views[a].0, key@, views[b - 1].0);
                } else if a == p {
                    assert(nv[b] == views[b - 1]);
                } else {
                    assert(nv[a] == views[a - 1] && nv[b] == views[b - 1]);
                }
            }
            assert forall|q: int| 0 <= q < keys@.len() implies (#[trigger] keys@[q])@
                == out@[q].name@ by {
                if q < p {
                    assert(keys@[q] == old_keys[q] && out@[q] == old_out[q]);
                } else if q > p {
                    assert(keys@[q] == old_keys[q - 1] && out@[q] == old_out[q - 1]);
                }
            }
            vstd::seq_lib::to_multiset_insert(views, p as int, v);
            assert(jobs@.take(i + 1) =~= jobs@.take(i as int).push(jobs@[i as int]));
            assert(job_views(jobs@.take(i + 1)) =~= job_views(jobs@.take(i as int)).push(v));
            job_views(jobs@.take(i as int)).to_multiset_ensures();
        }
        i = i + 1;
    }
    assert(jobs@.take(jobs@.len() as int) =~= jobs@);
    (out, keys)
}

/// The first job whose label repeats an earlier one up to ASCII letter case.
fn find_first_twin(jobs: &Vec<PngEmbedJob>, keys: &Vec<Vec<char>>) -> (r: Option<usize>)
    requires
        keys@.len() == jobs@.len(),
        forall|q: int| 0 <= q < keys@.len() ==> (#[trigger] keys@[q])@ == jobs@[q].name@,
    ensures
        match r {
            Some(j) => first_twin(job_views(jobs@), j as int),
            None => forall|j: int| 0 <= j < jobs@.len() ==> !has_earlier_twin(job_views(jobs@), j),
        },
{
    let ghost views = job_views(jobs@);
    let mut j: usize = 0;
    while j < keys.len()
        invariant
            j <= keys@.len(),
            keys@.len() == jobs@.len(),
            views == job_views(jobs@),
            forall|q: int| 0 <= q < keys@.len() ==> (#[trigger] keys@[q])@ == jobs@[q].name@,
            forall|k: int| 0 <= k < j ==> !has_earlier_twin(views, k),
        decreases keys@.len() - j,
    {
        let mut i: usize = 0;
        while i < j
            invariant
                i <= j < keys@.len(),
                keys@.len() == jobs@.len(),
                views == job_views(jobs@),
                forall|q: int| 0 <= q < keys@.len() ==> (#[trigger] keys@[q])@ == jobs@[q].name@,
                forall|k: int| 0 <= k < j ==> !has_earlier_twin(views, k),
                forall|a: int| 0 <= a < i ==> !eq_ignore_ascii_case(#[trigger] views[a].0, views[j as int].0),
            decreases j - i,
        {
            assert(keys@[i as int]@ == views[i as int].0 && keys@[j as int]@ == views[j as int].0);
            if chars_eq_ignore_case(&keys[i], &keys[j]) {
                assert(has_earlier_twin(views, j as int));
                return Some(j);
            }
            i = i + 1;
        }
        j = j + 1;
    }
    None
}

/// The templates to embed, ordered by label.
///
/// `namespaces` holds each namespace directory's name and its template files;
/// when some namespace directory holds a template the labels are `namespace:stem`
/// and the `flat` files are ignored, otherwise the `flat` files are labelled by
/// their stems. Fails on the first file (in the order given) without a UTF-8
/// stem, then on the first label in label order that repeats an earlier one up
/// to ASCII letter case, then when there is no template at all.
pub fn plan_png_jobs(namespaces: &Vec<(String, Vec<PngFile>)>, flat: &Vec<PngFile>) -> (r: Result<
    Vec<PngEmbedJob>,
    JobsProblem,
>)
    ensures
        match r {
            Ok(js) => {
                &&& all_named(found(namespaces@, flat@))
                &&& sorts_found(found(namespaces@, flat@), job_views(js@))
                &&& forall|j: int| 0 <= j < js@.len() ==> !has_earlier_twin(job_views(js@), j)
                &&& js@.len() > 0
            },
            Err(JobsProblem::InvalidName(p)) => exists|k: int|
                first_unnamed(found(namespaces@, flat@), k) && p@ == found(namespaces@, flat@)[k].1,
            Err(JobsProblem::DuplicateLabel(l)) => {
                &&& all_named(found(namespaces@, flat@))
                &&& exists|sorted: Seq<(Seq<char>, Seq<char>)>, j: int|
                    sorts_found(found(namespaces@, flat@), sorted) && #[trigger] first_twin(sorted, j)
                        && l@ == sorted[j].0
            },
            Err(JobsProblem::NoPngFiles) => all_named(found(namespaces@, flat@)) && found(
                namespaces@,
                flat@,
            ).len() == 0,
        },
{
    let labelled = match labelled_jobs(namespaces, flat) {
        Ok(js) => js,
        Err(p) => {
            return Err(JobsProblem::InvalidName(p));
        },
    };
    let ghost f = found(namespaces@, flat@);
    let (sorted, keys) = sort_by_label(&labelled);
    proof {
        assert(named(f) =~= Seq::new(f.len(), |i: int| (f[i].0->0, f[i].1)));
    }
    match find_first_twin(&sorted, &keys) {
        Some(j) => {
            let l = sorted[j].name.clone();
            assert(first_twin(job_views(sorted@), j as int));
            assert(l@ == job_views(sorted@)[j as int].0);
            return Err(JobsProblem::DuplicateLabel(l));
        },
        None => {},
    }
    if sorted.len() == 0 {
        assert(job_views(labelled@).len() == 0) by {
            job_views(labelled@).to_multiset_ensures();
            job_views(sorted@).to_multiset_ensures();
        }
        return Err(JobsProblem::NoPngFiles);
    }
    Ok(sorted)
}

/// Worker threads for embedding `png_count` templates: the machine's default
/// (`default_jobs`), at least one, and no more than there are templates.
pub fn embedding_worker_jobs(default_jobs: usize, png_count: usize) -> (n: usize)
    ensures
        n == min_int(max_int(default_jobs as int, 1), png_count as int),
{
    let at_least_one = if default_jobs >= 1 { default_jobs } else { 1 };
    if at_least_one <= png_count { at_least_one } else { png_count }
}

} // verus!
