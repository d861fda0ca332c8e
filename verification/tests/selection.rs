use mate::adapters::registry::Registry;
use mate::context::ProjectContext;
use mate::error::{Error, ErrorKind};
use mate::host::Host;
use mate::model::{
    Candidate, InstanceScope, ManagerInstance, ManagerKind, MatchKind, Selection, Target, TargetKind,
};
use mate::path::{FilePath, Platform};
use mate::selection::{
    choose_target, choose_unattended_candidate, deduplicate_logical_candidates, exact_package_match,
    rank_candidates, select_installations, target_matches, Pick, SelectionOutcome, SelectionRequest,
};

fn host() -> Host {
    Host {
        platform: Platform::Unix,
        current_dir: None,
        temp_dir: FilePath::unix("/tmp"),
        search_path: Vec::new(),
        env: Vec::new(),
        paths: Vec::new(),
    }
}

fn system_context() -> ProjectContext {
    ProjectContext {
        cwd: FilePath::unix("/project"),
        project_root: None,
        workspace_root: None,
        targets: vec![Target {
            id: "system".into(),
            kind: TargetKind::System,
            label: "system packages".into(),
            path: None,
            exists: true,
        }],
        markers: Vec::new(),
    }
}

fn apt_instance(id: &str) -> ManagerInstance {
    ManagerInstance {
        id: id.into(),
        kind: ManagerKind::Apt,
        executable: FilePath::unix("/usr/bin/apt-get"),
        launcher_args: Vec::new(),
        version: "apt 3".into(),
        scope: InstanceScope::Generic,
    }
}

fn apt_candidate(query: &str, package: &str, instance: &str, score: u16) -> Candidate {
    Candidate {
        query: query.into(),
        package: package.into(),
        match_name: package.into(),
        manager_instance_id: instance.into(),
        manager: ManagerKind::Apt,
        source: "APT configured repositories".into(),
        version: None,
        description: None,
        score,
        match_kind: MatchKind::Unmatched,
        verified: true,
    }
}

fn chosen(outcome: Result<SelectionOutcome, Error>) -> Vec<Selection> {
    match outcome {
        Ok(SelectionOutcome::Chosen(selections)) => selections,
        other => panic!("nothing was chosen: {other:?}"),
    }
}

#[test]
fn unattended_selection_accepts_multiple_candidates_from_one_instance() {
    let registry = Registry::standard();
    let context = system_context();
    let instances = vec![apt_instance("apt:one")];
    let queries = vec!["ripgrep".to_owned()];
    let candidates = vec![
        apt_candidate("ripgrep", "ripgrep-all", "apt:one", 80),
        apt_candidate("ripgrep", "RIPGREP", "apt:one", 100),
        apt_candidate("ripgrep", "ripgrep", "apt:one", 100),
        apt_candidate("ripgrep", "elpa-rg", "apt:one", 60),
    ];

    let selections = chosen(select_installations(
        SelectionRequest {
            registry: &registry,
            host: &host(),
            context: &context,
            instances: &instances,
            queries: &queries,
            candidates: &candidates,
            target_override: Some("system"),
            instance_override: None,
            allow_prompts: false,
        },
        &Vec::new(),
    ));

    assert_eq!(selections.len(), 1);
    assert_eq!(selections[0].candidate.package, "ripgrep");
    assert_eq!(selections[0].candidate.manager_instance_id, "apt:one");
}

#[test]
fn unattended_selection_requires_instance_for_multiple_instances() {
    let registry = Registry::standard();
    let context = system_context();
    let instances = vec![apt_instance("apt:one"), apt_instance("apt:two")];
    let queries = vec!["ripgrep".to_owned()];
    let candidates = vec![
        apt_candidate("ripgrep", "ripgrep", "apt:one", 100),
        apt_candidate("ripgrep", "ripgrep", "apt:two", 100),
    ];

    let error = select_installations(
        SelectionRequest {
            registry: &registry,
            host: &host(),
            context: &context,
            instances: &instances,
            queries: &queries,
            candidates: &candidates,
            target_override: Some("system"),
            instance_override: None,
            allow_prompts: false,
        },
        &Vec::new(),
    )
    .unwrap_err()
    .text();

    assert!(error.contains("multiple manager instances"));
    assert!(error.contains("--instance"));
    assert!(error.contains("apt:one"));
    assert!(error.contains("apt:two"));
}

#[test]
fn instance_override_allows_multiple_packages_from_the_selected_instance() {
    let registry = Registry::standard();
    let context = system_context();
    let instances = vec![apt_instance("apt:one"), apt_instance("apt:two")];
    let queries = vec!["ripgrep".to_owned()];
    let candidates = vec![
        apt_candidate("ripgrep", "ripgrep-all", "apt:one", 80),
        apt_candidate("ripgrep", "ripgrep", "apt:one", 100),
        apt_candidate("ripgrep", "ripgrep", "apt:two", 100),
    ];

    let selections = chosen(select_installations(
        SelectionRequest {
            registry: &registry,
            host: &host(),
            context: &context,
            instances: &instances,
            queries: &queries,
            candidates: &candidates,
            target_override: Some("system"),
            instance_override: Some("apt:one"),
            allow_prompts: false,
        },
        &Vec::new(),
    ));

    assert_eq!(selections[0].candidate.package, "ripgrep");
    assert_eq!(selections[0].candidate.manager_instance_id, "apt:one");
}

#[test]
fn unattended_selection_reports_tied_packages_without_suggesting_instance() {
    let registry = Registry::standard();
    let context = system_context();
    let instances = vec![apt_instance("apt:one")];
    let queries = vec!["rip".to_owned()];
    let candidates = vec![
        apt_candidate("rip", "ripgrep", "apt:one", 80),
        apt_candidate("rip", "ripgrep-all", "apt:one", 80),
        apt_candidate("rip", "other", "apt:one", 60),
    ];

    let error = select_installations(
        SelectionRequest {
            registry: &registry,
            host: &host(),
            context: &context,
            instances: &instances,
            queries: &queries,
            candidates: &candidates,
            target_override: Some("system"),
            instance_override: None,
            allow_prompts: false,
        },
        &Vec::new(),
    )
    .unwrap_err()
    .text();

    assert!(error.contains("ambiguous within manager instance apt:one"));
    assert!(error.contains("ripgrep"));
    assert!(error.contains("ripgrep-all"));
    assert!(!error.contains("--instance"));
}

#[test]
fn target_filter_can_disambiguate_manager_instances() {
    let registry = Registry::standard();
    let first_path = FilePath::unix("/venvs/first");
    let second_path = FilePath::unix("/venvs/second");
    let context = ProjectContext {
        cwd: FilePath::unix("/project"),
        project_root: None,
        workspace_root: None,
        targets: vec![
            Target {
                id: "venv:first".into(),
                kind: TargetKind::PythonVenv,
                label: "first venv".into(),
                path: Some(first_path.clone()),
                exists: true,
            },
            Target {
                id: "venv:second".into(),
                kind: TargetKind::PythonVenv,
                label: "second venv".into(),
                path: Some(second_path.clone()),
                exists: true,
            },
        ],
        markers: Vec::new(),
    };
    let make_instance = |id: &str, path: FilePath| ManagerInstance {
        id: id.into(),
        kind: ManagerKind::Pip,
        executable: path.child("bin").child("pip"),
        launcher_args: Vec::new(),
        version: "pip 25".into(),
        scope: InstanceScope::PythonVenv(path),
    };
    let instances = vec![
        make_instance("pip:first", first_path),
        make_instance("pip:second", second_path),
    ];
    let queries = vec!["requests".to_owned()];
    let make_candidate = |instance: &str| Candidate {
        query: "requests".into(),
        package: "requests".into(),
        match_name: "requests".into(),
        manager_instance_id: instance.into(),
        manager: ManagerKind::Pip,
        source: "https://pypi.org/simple".into(),
        version: Some("2.32.4".into()),
        description: None,
        score: 100,
        match_kind: MatchKind::Unmatched,
        verified: true,
    };
    let candidates = vec![make_candidate("pip:second"), make_candidate("pip:first")];

    let selections = chosen(select_installations(
        SelectionRequest {
            registry: &registry,
            host: &host(),
            context: &context,
            instances: &instances,
            queries: &queries,
            candidates: &candidates,
            target_override: Some("venv:first"),
            instance_override: None,
            allow_prompts: false,
        },
        &Vec::new(),
    ));

    assert_eq!(selections[0].candidate.manager_instance_id, "pip:first");
    assert_eq!(selections[0].target.id, "venv:first");
}

#[test]
fn questions_are_asked_one_after_the_other() {
    let registry = Registry::standard();
    let context = system_context();
    let instances = vec![apt_instance("apt:one"), apt_instance("apt:two")];
    let queries = vec!["ripgrep".to_owned()];
    let candidates = vec![
        apt_candidate("ripgrep", "ripgrep", "apt:two", 100),
        apt_candidate("ripgrep", "ripgrep", "apt:one", 100),
    ];
    let known = host();
    let select = |answers: &Vec<usize>| {
        select_installations(
            SelectionRequest {
                registry: &registry,
                host: &known,
                context: &context,
                instances: &instances,
                queries: &queries,
                candidates: &candidates,
                target_override: None,
                instance_override: None,
                allow_prompts: true,
            },
            answers,
        )
    };
    match select(&Vec::new()).unwrap() {
        SelectionOutcome::Ask(prompt) => {
            assert_eq!(prompt.text, "Select manager and package for ripgrep");
            assert_eq!(prompt.labels.len(), 2);
            assert!(prompt.labels[0].contains("@ apt:one"));
        }
        other => panic!("no question: {other:?}"),
    }
    match select(&vec![1]).unwrap() {
        SelectionOutcome::Ask(prompt) => {
            assert_eq!(prompt.text, "Select installation target for ripgrep");
            assert_eq!(prompt.labels, ["system packages [system]"]);
        }
        other => panic!("no question: {other:?}"),
    }
    let selections = chosen(select(&vec![1, 0]));
    assert_eq!(selections[0].candidate.manager_instance_id, "apt:two");
    assert_eq!(selections[0].target.id, "system");
    assert!(matches!(select(&vec![7]).unwrap(), SelectionOutcome::Ask(_)));
}

fn select_one(
    instances: Vec<ManagerInstance>,
    candidates: Vec<Candidate>,
    target: Option<&str>,
) -> Result<SelectionOutcome, Error> {
    select_installations(
        SelectionRequest {
            registry: &Registry::standard(),
            host: &host(),
            context: &system_context(),
            instances: &instances,
            queries: &vec!["ripgrep".to_owned()],
            candidates: &candidates,
            target_override: target,
            instance_override: None,
            allow_prompts: false,
        },
        &Vec::new(),
    )
}

#[test]
fn inconsistent_candidates_are_refused() {
    let candidates = vec![apt_candidate("ripgrep", "ripgrep", "apt:gone", 100)];
    let unknown = select_one(vec![apt_instance("apt:one")], candidates, None).unwrap_err();
    assert_eq!(unknown.kind, ErrorKind::UnknownInstance);
    assert_eq!(
        unknown.text(),
        "candidate ripgrep refers to unknown manager instance apt:gone"
    );

    let mut foreign = apt_candidate("ripgrep", "ripgrep", "apt:one", 100);
    foreign.manager = ManagerKind::Uv;
    let mismatch = select_one(vec![apt_instance("apt:one")], vec![foreign], None).unwrap_err();
    assert_eq!(mismatch.kind, ErrorKind::ManagerMismatch);
    assert_eq!(mismatch.text(), "candidate ripgrep claims manager uv but belongs to apt:one");
}

#[test]
fn a_query_without_candidates_is_refused() {
    let error = select_one(vec![apt_instance("apt:one")], Vec::new(), None).unwrap_err();
    assert_eq!(error.kind, ErrorKind::NoCandidate);
    assert!(error.text().ends_with("was found for \"ripgrep\""));
    let elsewhere = select_one(
        vec![apt_instance("apt:one")],
        vec![apt_candidate("ripgrep", "ripgrep", "apt:one", 100)],
        Some("venv:/nowhere"),
    )
    .unwrap_err();
    assert_eq!(elsewhere.kind, ErrorKind::NoCandidate);
    let none = choose_unattended_candidate("ripgrep", &Vec::new()).unwrap_err();
    assert_eq!(none.text(), "no candidate was found for \"ripgrep\"");
}

#[test]
fn a_manager_without_targets_is_refused() {
    let error = select_installations(
        SelectionRequest {
            registry: &Registry::standard(),
            host: &host(),
            context: &ProjectContext { targets: Vec::new(), ..system_context() },
            instances: &vec![apt_instance("apt:one")],
            queries: &vec!["ripgrep".to_owned()],
            candidates: &vec![apt_candidate("ripgrep", "ripgrep", "apt:one", 100)],
            target_override: None,
            instance_override: None,
            allow_prompts: false,
        },
        &Vec::new(),
    )
    .unwrap_err();
    assert_eq!(error.kind, ErrorKind::NoTarget);
    assert_eq!(error.text(), "apt:one has no compatible target");
}

#[test]
fn exact_names_rank_before_scores() {
    let ranked = rank_candidates(vec![
        apt_candidate("ripgrep", "other", "apt:one", 200),
        apt_candidate("ripgrep", "RIPGREP", "apt:one", 100),
        apt_candidate("ripgrep", "ripgrep", "apt:one", 50),
    ]);
    let packages: Vec<&str> = ranked.iter().map(|c| c.package.as_str()).collect();
    assert_eq!(packages, ["ripgrep", "RIPGREP", "other"]);
    assert!(exact_package_match("ripgrep", &ranked[1]));
    assert!(!exact_package_match("ripgrep", &ranked[2]));
}

#[test]
fn one_package_is_offered_once() {
    let kept = deduplicate_logical_candidates(&vec![
        apt_candidate("ripgrep", "ripgrep", "apt:one", 100),
        apt_candidate("ripgrep", "RIPGREP", "apt:one", 90),
        apt_candidate("ripgrep", "ripgrep", "apt:two", 80),
    ]);
    assert_eq!(kept.len(), 2);
    assert_eq!(kept[0].score, 100);
    assert_eq!(kept[1].manager_instance_id, "apt:two");
    let again = deduplicate_logical_candidates(&kept);
    let packages = |list: &[Candidate]| -> Vec<(String, u16)> {
        list.iter().map(|c| (c.package.clone(), c.score)).collect()
    };
    assert_eq!(packages(&again), packages(&kept));
}

fn venv(id: &str, path: &str) -> Target {
    Target {
        id: id.into(),
        kind: TargetKind::PythonVenv,
        label: "venv".into(),
        path: Some(FilePath::unix(path)),
        exists: true,
    }
}

#[test]
fn targets_are_named_by_id_or_path() {
    let target = venv("venv:/v", "/v");
    assert!(target_matches(&target, "venv:/v"));
    assert!(target_matches(&target, "/v"));
    assert!(!target_matches(&target, "/w"));
}

#[test]
fn an_unattended_target_has_to_be_unique() {
    let targets = vec![venv("venv:/v", "/v"), venv("venv:/w", "/w")];
    let several = choose_target("x", &targets, None, false, &Vec::new(), 0).unwrap_err();
    assert_eq!(several.kind, ErrorKind::SeveralTargets);
    assert_eq!(
        several.text(),
        "\"x\" has 2 compatible targets; pass --target or run interactively"
    );
    let foreign = choose_target("x", &targets, Some("user"), false, &Vec::new(), 0).unwrap_err();
    assert_eq!(foreign.kind, ErrorKind::IncompatibleTarget);
    assert_eq!(foreign.text(), "target \"user\" is not compatible with \"x\"");
    match choose_target("x", &targets, Some("/w"), true, &Vec::new(), 0).unwrap() {
        Pick::Chosen(target, used) => {
            assert_eq!(target.id, "venv:/w");
            assert_eq!(used, 0);
        }
        Pick::Ask(prompt) => panic!("asked {prompt:?}"),
    }
}
