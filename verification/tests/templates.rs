use ui_extractor::templates::{embedding_worker_jobs, plan_png_jobs, JobsProblem, PngEmbedJob, PngFile};
use ui_extractor::types::ExtractError;

fn png(dir: &str, stem: &str) -> PngFile {
    PngFile {
        stem: Some(stem.to_string()),
        path: format!("{dir}/{stem}.png"),
    }
}

fn names(jobs: &[PngEmbedJob]) -> Vec<&str> {
    jobs.iter().map(|j| j.name.as_str()).collect()
}

fn text(problem: &JobsProblem) -> String {
    match problem.to_error("icons") {
        ExtractError::Image(m) => m,
        other => panic!("unexpected error {other:?}"),
    }
}

#[test]
fn collect_png_jobs_namespace_layout() {
    let namespaces = vec![
        ("mdi".to_string(), vec![png("icons/mdi", "home")]),
        ("tabler".to_string(), vec![png("icons/tabler", "home")]),
    ];
    let jobs = plan_png_jobs(&namespaces, &vec![]).unwrap();
    assert_eq!(jobs.len(), 2);
    assert_eq!(jobs[0].name, "mdi:home");
    assert_eq!(jobs[1].name, "tabler:home");
}

#[test]
fn collect_png_jobs_flat_layout() {
    let jobs = plan_png_jobs(&vec![], &vec![png("icons", "home")]).unwrap();
    assert_eq!(jobs.len(), 1);
    assert_eq!(jobs[0].name, "home");
}

#[test]
fn collect_png_jobs_rejects_duplicate_labels() {
    let namespaces = vec![(
        "mdi".to_string(),
        vec![png("icons/mdi", "Home"), png("icons/mdi", "home")],
    )];
    let err = plan_png_jobs(&namespaces, &vec![]).unwrap_err();
    assert!(text(&err).contains("duplicate icon label"));
}

#[test]
fn duplicate_reports_later_label_in_label_order() {
    let namespaces = vec![(
        "mdi".to_string(),
        vec![png("icons/mdi", "home"), png("icons/mdi", "apple"), png("icons/mdi", "Home")],
    )];
    let err = plan_png_jobs(&namespaces, &vec![]).unwrap_err();
    assert_eq!(err_label(&err), "mdi:home");
    assert_eq!(text(&err), "duplicate icon label in embedding index: mdi:home");
}

fn err_label(problem: &JobsProblem) -> String {
    match problem {
        JobsProblem::DuplicateLabel(l) => l.clone(),
        other => panic!("unexpected problem {other:?}"),
    }
}

#[test]
fn jobs_sorted_by_label_with_paths() {
    let namespaces = vec![
        ("tabler".to_string(), vec![png("icons/tabler", "zoom"), png("icons/tabler", "add")]),
        ("mdi".to_string(), vec![png("icons/mdi", "menu")]),
        ("empty".to_string(), vec![]),
    ];
    let flat = vec![png("icons", "ignored")];
    let jobs = plan_png_jobs(&namespaces, &flat).unwrap();
    assert_eq!(names(&jobs), vec!["mdi:menu", "tabler:add", "tabler:zoom"]);
    assert_eq!(jobs[1].path, "icons/tabler/add.png");
}

#[test]
fn empty_namespaces_fall_back_to_flat_files() {
    let namespaces = vec![("empty".to_string(), vec![])];
    let flat = vec![png("icons", "b"), png("icons", "a")];
    let jobs = plan_png_jobs(&namespaces, &flat).unwrap();
    assert_eq!(names(&jobs), vec!["a", "b"]);
}

#[test]
fn invalid_stem_is_reported_with_its_path() {
    let flat = vec![
        png("icons", "a"),
        PngFile { stem: None, path: "icons/bad.png".to_string() },
        PngFile { stem: None, path: "icons/worse.png".to_string() },
    ];
    let err = plan_png_jobs(&vec![], &flat).unwrap_err();
    assert!(matches!(&err, JobsProblem::InvalidName(p) if p == "icons/bad.png"));
    assert_eq!(text(&err), "invalid PNG file name: icons/bad.png");
}

#[test]
fn no_templates_is_an_error() {
    let err = plan_png_jobs(&vec![], &vec![]).unwrap_err();
    assert!(matches!(err, JobsProblem::NoPngFiles));
    assert_eq!(
        text(&err),
        "no PNG files under icons (expected flat *.png or <namespace>/*.png)"
    );
}

#[test]
fn worker_jobs_bounded_by_templates_and_at_least_one() {
    assert_eq!(embedding_worker_jobs(8, 3), 3);
    assert_eq!(embedding_worker_jobs(8, 100), 8);
    assert_eq!(embedding_worker_jobs(0, 100), 1);
    assert_eq!(embedding_worker_jobs(4, 0), 0);
}
