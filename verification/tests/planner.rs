use mate::adapters::registry::Registry;
use mate::context::ProjectContext;
use mate::error::ErrorKind;
use mate::host::Host;
use mate::model::{
    Candidate, InstanceScope, ManagerInstance, ManagerKind, MatchKind, Selection, Target, TargetKind,
};
use mate::path::{FilePath, Platform};
use mate::planner::{build_plan, instance_with_id, resolved_spec, validate_new_target_ownership};

#[test]
fn pins_python_candidates_to_searched_version() {
    let selection = Selection {
        query: "requests".into(),
        candidate: Candidate {
            query: "requests".into(),
            package: "requests".into(),
            match_name: "requests".into(),
            manager_instance_id: "uv:test".into(),
            manager: ManagerKind::Uv,
            source: "https://pypi.org/simple".into(),
            version: Some("2.32.4".into()),
            description: None,
            score: 1_000,
            match_kind: MatchKind::Exact,
            verified: true,
        },
        target: Target {
            id: "user".into(),
            kind: TargetKind::User,
            label: "user".into(),
            path: None,
            exists: true,
        },
    };
    assert_eq!(resolved_spec(&selection), "requests==2.32.4");
}

fn selection(manager: ManagerKind, instance: &str, package: &str, version: Option<&str>) -> Selection {
    Selection {
        query: package.into(),
        candidate: Candidate {
            query: package.into(),
            package: package.into(),
            match_name: package.into(),
            manager_instance_id: instance.into(),
            manager,
            source: "registry".into(),
            version: version.map(str::to_owned),
            description: None,
            score: 1_000,
            match_kind: MatchKind::Exact,
            verified: true,
        },
        target: Target {
            id: "target".into(),
            kind: TargetKind::User,
            label: "target".into(),
            path: None,
            exists: true,
        },
    }
}

#[test]
fn pins_cargo_and_npm_candidates_with_at_syntax() {
    let make_selection = |manager: ManagerKind, package: &str, version: &str| {
        selection(manager, &format!("{}:test", manager.name()), package, Some(version))
    };

    assert_eq!(
        resolved_spec(&make_selection(ManagerKind::Cargo, "ripgrep", "14.1.1")),
        "ripgrep@14.1.1"
    );
    assert_eq!(
        resolved_spec(&make_selection(ManagerKind::Npm, "typescript", "5.8.3")),
        "typescript@5.8.3"
    );
}

#[test]
fn other_managers_are_told_the_bare_name() {
    let apt = selection(ManagerKind::Apt, "apt:test", "ripgrep", Some("14.1.1"));
    assert_eq!(resolved_spec(&apt), "ripgrep");
    let unknown = selection(ManagerKind::Pip, "pip:test", "requests", None);
    assert_eq!(resolved_spec(&unknown), "requests");
}

#[test]
fn rejects_two_uv_instances_creating_the_same_venv() {
    let target = Target {
        id: "venv:/project/.venv".into(),
        kind: TargetKind::PythonVenv,
        label: "new venv".into(),
        path: Some(FilePath::unix("/project/.venv")),
        exists: false,
    };
    let make_selection = |instance: &str, package: &str| Selection {
        query: package.into(),
        candidate: Candidate {
            query: package.into(),
            package: package.into(),
            match_name: package.into(),
            manager_instance_id: instance.into(),
            manager: ManagerKind::Uv,
            source: "https://pypi.org/simple".into(),
            version: Some("1.0.0".into()),
            description: None,
            score: 1_000,
            match_kind: MatchKind::Exact,
            verified: true,
        },
        target: target.clone(),
    };
    let selections = vec![make_selection("uv:/one", "alpha"), make_selection("uv:/two", "beta")];
    assert!(validate_new_target_ownership(&selections).is_err());
}

fn uv(id: &str) -> ManagerInstance {
    ManagerInstance {
        id: id.into(),
        kind: ManagerKind::Uv,
        executable: FilePath::unix("/usr/bin/uv"),
        launcher_args: Vec::new(),
        version: "uv 0.8".into(),
        scope: InstanceScope::Generic,
    }
}

fn host() -> Host {
    Host {
        platform: Platform::Unix,
        current_dir: None,
        temp_dir: FilePath::unix("/tmp"),
        search_path: Vec::new(),
        env: Vec::new(),
        paths: Vec::new(),
    }
}

fn context() -> ProjectContext {
    ProjectContext {
        cwd: FilePath::unix("/project"),
        project_root: None,
        workspace_root: None,
        targets: Vec::new(),
        markers: Vec::new(),
    }
}

#[test]
fn one_instance_may_create_a_target_for_many_packages() {
    let mut first = selection(ManagerKind::Uv, "uv:/one", "alpha", Some("1.0.0"));
    first.target.exists = false;
    let mut second = selection(ManagerKind::Uv, "uv:/one", "beta", Some("1.0.0"));
    second.target.exists = false;
    assert!(validate_new_target_ownership(&vec![first, second]).is_ok());
}

#[test]
fn a_plan_installs_every_selection() {
    let selections = vec![
        selection(ManagerKind::Uv, "uv:/two", "beta", Some("2.0.0")),
        selection(ManagerKind::Uv, "uv:/one", "alpha", Some("1.0.0")),
        selection(ManagerKind::Uv, "uv:/two", "gamma", Some("3.0.0")),
    ];
    let plan = build_plan(
        &Registry::standard(),
        &host(),
        &vec![uv("uv:/one"), uv("uv:/two")],
        selections,
        &context(),
    )
    .unwrap();
    assert_eq!(plan.selections.len(), 3);
    for spec in ["alpha==1.0.0", "beta==2.0.0", "gamma==3.0.0"] {
        assert!(plan.steps.iter().any(|step| step.args.iter().any(|arg| arg == spec)), "{spec}");
    }
    let position = |spec: &str| {
        plan.steps.iter().position(|step| step.args.iter().any(|arg| arg == spec)).unwrap()
    };
    assert!(position("alpha==1.0.0") < position("beta==2.0.0"));
}

#[test]
fn a_plan_needs_its_instances() {
    let selections = vec![selection(ManagerKind::Uv, "uv:/gone", "alpha", Some("1.0.0"))];
    let error = build_plan(
        &Registry::standard(),
        &host(),
        &vec![uv("uv:/one")],
        selections,
        &context(),
    )
    .unwrap_err();
    assert_eq!(error.kind, ErrorKind::InstanceMissing);
    assert!(instance_with_id(&vec![uv("uv:/one")], "uv:/one").is_some());
    assert!(instance_with_id(&vec![uv("uv:/one")], "uv:/gone").is_none());
}

#[test]
fn shared_new_targets_are_named_in_the_refusal() {
    let mut first = selection(ManagerKind::Uv, "uv:/one", "alpha", Some("1.0.0"));
    first.target.exists = false;
    let mut second = selection(ManagerKind::Uv, "uv:/two", "beta", Some("1.0.0"));
    second.target.exists = false;
    let error = validate_new_target_ownership(&vec![first, second]).unwrap_err();
    assert_eq!(error.kind, ErrorKind::SharedNewTarget);
    assert_eq!(
        error.text(),
        "new target target cannot be created by multiple manager instances (uv:/one and uv:/two) in one plan"
    );
}

#[test]
fn a_plan_sets_variables_in_the_order_of_their_names() {
    let brew = ManagerInstance {
        id: "brew:/one".into(),
        kind: ManagerKind::Brew,
        executable: FilePath::unix("/opt/homebrew/bin/brew"),
        launcher_args: Vec::new(),
        version: "Homebrew 4".into(),
        scope: InstanceScope::Generic,
    };
    let selections = vec![selection(ManagerKind::Brew, "brew:/one", "ripgrep", None)];
    let plan =
        build_plan(&Registry::standard(), &host(), &vec![brew], selections, &context()).unwrap();
    let names: Vec<&str> =
        plan.steps[0].env.entries().iter().map(|variable| variable.name.as_str()).collect();
    assert_eq!(
        names,
        [
            "HOMEBREW_NO_AUTO_UPDATE",
            "HOMEBREW_NO_INSTALLED_DEPENDENTS_CHECK",
            "HOMEBREW_NO_INSTALL_CLEANUP"
        ]
    );
}
