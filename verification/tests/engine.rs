use mate::adapters::registry::Registry;
use mate::cli::{Cli, Command, Task};
use mate::context::ProjectContext;
use mate::engine::{
    ensure_exact, ensure_managers_found, include_instance_targets, install, normalize_packages,
    selection_mode, InstallOptions, InstallRequest, InstallStep,
};
use mate::error::{Error, ErrorKind};
use mate::host::Host;
use mate::matching::{apply, is_unattended_exact};
use mate::model::{
    Candidate, InstanceScope, ManagerInstance, ManagerKind, MatchKind, Selection, Target, TargetKind,
};
use mate::path::{FilePath, Platform};

fn host() -> Host {
    Host {
        platform: Platform::Unix,
        current_dir: None,
        temp_dir: FilePath::unix("/tmp"),
        search_path: Vec::new(),
        env: Vec::new(),
        paths: Vec::new(),
    }
}

fn system() -> Target {
    Target {
        id: "system".into(),
        kind: TargetKind::System,
        label: "system packages".into(),
        path: None,
        exists: true,
    }
}

fn context() -> ProjectContext {
    ProjectContext {
        cwd: FilePath::unix("/project"),
        project_root: None,
        workspace_root: None,
        targets: vec![system()],
        markers: Vec::new(),
    }
}

fn apt() -> ManagerInstance {
    ManagerInstance {
        id: "apt:test".into(),
        kind: ManagerKind::Apt,
        executable: FilePath::unix("/usr/bin/apt-get"),
        launcher_args: Vec::new(),
        version: "apt 3".into(),
        scope: InstanceScope::Generic,
    }
}

fn candidate(package: &str) -> Candidate {
    Candidate {
        query: "ripgrep".into(),
        package: package.into(),
        match_name: package.into(),
        manager_instance_id: "apt:test".into(),
        manager: ManagerKind::Apt,
        source: "test".into(),
        version: None,
        description: None,
        score: 100,
        match_kind: MatchKind::Unmatched,
        verified: true,
    }
}

fn options() -> InstallOptions {
    InstallOptions {
        managers: vec![ManagerKind::Apt],
        target: Some("system".into()),
        instance: None,
        dry_run: false,
        yes: false,
        interactive: false,
    }
}

fn run(
    options: &InstallOptions,
    candidates: Vec<Candidate>,
    warnings: Vec<String>,
    answers: Vec<usize>,
    confirmation: Option<bool>,
) -> Result<InstallStep, Error> {
    install(
        InstallRequest {
            registry: &Registry::standard(),
            host: &host(),
            context: &context(),
            instances: &vec![apt()],
            packages: &vec!["ripgrep".to_owned()],
            candidates: &candidates,
            warnings: &warnings,
            options,
        },
        &answers,
        confirmation,
    )
}

#[test]
fn doctor_includes_manager_specific_global_targets() {
    let prefix = FilePath::unix("/npm/prefix");
    let instance = ManagerInstance {
        id: "npm:test".into(),
        kind: ManagerKind::Npm,
        executable: FilePath::unix("npm"),
        launcher_args: Vec::new(),
        version: "11.9.0".into(),
        scope: InstanceScope::NodeGlobal(prefix.clone()),
    };
    let mut context = ProjectContext {
        cwd: FilePath::unix("/project"),
        project_root: None,
        workspace_root: None,
        targets: Vec::new(),
        markers: Vec::new(),
    };

    include_instance_targets(&Registry::standard(), &host(), &vec![instance], &mut context).unwrap();
    assert_eq!(context.targets.len(), 1);
    assert_eq!(context.targets[0].id, format!("node-global:{}", prefix.text()));
}

#[test]
fn known_targets_are_not_added_again() {
    let mut context = context();
    include_instance_targets(&Registry::standard(), &host(), &vec![apt(), apt()], &mut context)
        .unwrap();
    assert_eq!(context.targets.len(), 1);
    let none = Registry { adapters: Vec::new() };
    let error = include_instance_targets(&none, &host(), &vec![apt()], &mut context).unwrap_err();
    assert_eq!(error.kind, ErrorKind::NoAdapter);
}

#[test]
fn queries_are_normalized() {
    let packages = vec!["b".to_owned(), "a".to_owned(), "b".to_owned()];
    assert_eq!(normalize_packages(packages).unwrap(), ["b", "a"]);
    assert_eq!(normalize_packages(vec!["a".to_owned(); 64]).unwrap(), ["a"]);
    let many = normalize_packages(vec!["a".to_owned(); 65]).unwrap_err();
    assert_eq!(many.kind, ErrorKind::TooManyPackages);
    assert_eq!(many.text(), "a single batch is limited to 64 package queries");
    let bad = normalize_packages(vec!["a".to_owned(), "-x".to_owned()]).unwrap_err();
    assert_eq!(bad.kind, ErrorKind::OptionLikeQuery);
}

#[test]
fn managers_that_are_asked_for_must_be_found() {
    assert!(ensure_managers_found(&vec![apt()], &vec![ManagerKind::Apt]).is_ok());
    assert!(ensure_managers_found(&vec![apt()], &Vec::new()).is_ok());
    let none = ensure_managers_found(&Vec::new(), &Vec::new()).unwrap_err();
    assert_eq!(none.kind, ErrorKind::NoManagers);
    let missing = ensure_managers_found(
        &vec![apt()],
        &vec![ManagerKind::Uv, ManagerKind::Apt, ManagerKind::Pip],
    )
    .unwrap_err();
    assert_eq!(missing.kind, ErrorKind::ManagersMissing);
    assert_eq!(missing.text(), "requested manager(s) not found: uv, pip");
}

#[test]
fn unattended_selection_has_to_be_explicit() {
    let bare = InstallOptions { managers: Vec::new(), target: None, ..options() };
    assert_eq!(selection_mode(&bare, 0).unwrap_err().kind, ErrorKind::ManagerRequired);
    let targetless = InstallOptions { target: None, ..options() };
    assert_eq!(selection_mode(&targetless, 0).unwrap_err().kind, ErrorKind::TargetRequired);
    let interactive = InstallOptions { managers: Vec::new(), interactive: true, ..options() };
    assert!(selection_mode(&interactive, 3).unwrap());
    let yes = InstallOptions { yes: true, interactive: true, ..options() };
    assert!(!selection_mode(&yes, 0).unwrap());
    let warned = selection_mode(&yes, 2).unwrap_err();
    assert_eq!(warned.kind, ErrorKind::WarningsPresent);
    assert_eq!(
        warned.text(),
        "refusing unattended selection because 2 discovery/search warning(s) occurred"
    );
}

#[test]
fn a_dry_run_only_shows_the_plan() {
    let dry = InstallOptions { dry_run: true, yes: true, ..options() };
    match run(&dry, vec![candidate("ripgrep")], Vec::new(), Vec::new(), Some(true)).unwrap() {
        InstallStep::Preview(plan) => {
            assert_eq!(plan.steps.len(), 1);
            assert_eq!(plan.selections[0].query, "ripgrep");
        }
        other => panic!("unexpected step {other:?}"),
    }
}

#[test]
fn yes_runs_what_was_asked_for_exactly() {
    let yes = InstallOptions { yes: true, ..options() };
    let step = run(&yes, vec![candidate("ripgrep")], Vec::new(), Vec::new(), None).unwrap();
    assert!(matches!(step, InstallStep::Execute(_)));
}

#[test]
fn yes_does_not_accept_a_fuzzy_match() {
    let yes = InstallOptions { yes: true, ..options() };
    let near = run(&yes, vec![candidate("ripgrepp")], Vec::new(), Vec::new(), None).unwrap_err();
    assert_eq!(near.kind, ErrorKind::NotExact);
    assert!(near.text().contains("\"ripgrep\" led to apt:ripgrepp"));
    let with_instance = InstallOptions { instance: Some("apt:test".into()), yes: true, ..options() };
    let still =
        run(&with_instance, vec![candidate("ripgrepp")], Vec::new(), Vec::new(), None).unwrap_err();
    assert_eq!(still.kind, ErrorKind::NotExact);
    let unverified = Candidate { verified: false, ..candidate("ripgrep") };
    let refused = run(&yes, vec![unverified], Vec::new(), Vec::new(), None).unwrap_err();
    assert_eq!(refused.kind, ErrorKind::NotExact);
}

#[test]
fn exactness_is_checked_selection_by_selection() {
    let selection = |package: &str| Selection {
        query: "ripgrep".into(),
        candidate: candidate(package),
        target: system(),
    };
    assert!(ensure_exact(&vec![selection("ripgrep"), selection("RIPGREP")]).is_ok());
    assert!(ensure_exact(&vec![selection("ripgrep"), selection("rg")]).is_err());
}

#[test]
fn what_yes_accepts_is_what_assessing_calls_exact() {
    for (package, verified) in [
        ("ripgrep", true),
        ("RipGrep", true),
        ("ripgrep", false),
        ("rip-grep", true),
        ("ripgrep-all", true),
    ] {
        let mut found = Candidate { verified, ..candidate(package) };
        let selection = Selection {
            query: "ripgrep".into(),
            candidate: Candidate { verified, ..candidate(package) },
            target: system(),
        };
        apply("ripgrep", &mut found);
        assert_eq!(ensure_exact(&vec![selection]).is_ok(), is_unattended_exact(&found));
    }
}

#[test]
fn a_plan_is_confirmed_at_the_terminal() {
    let interactive = InstallOptions { interactive: true, ..options() };
    let offered = vec![candidate("ripgrep"), candidate("ripgrep-all")];
    let ask = run(&interactive, offered.clone(), Vec::new(), Vec::new(), None).unwrap();
    assert!(matches!(ask, InstallStep::Ask(_)));
    let confirm = run(&interactive, offered.clone(), Vec::new(), vec![1], None).unwrap();
    match confirm {
        InstallStep::Confirm(plan) => {
            assert_eq!(plan.selections[0].candidate.package, "ripgrep-all");
        }
        other => panic!("unexpected step {other:?}"),
    }
    let execute = run(&interactive, offered.clone(), Vec::new(), vec![1], Some(true)).unwrap();
    assert!(matches!(execute, InstallStep::Execute(_)));
    let cancel = run(&interactive, offered, Vec::new(), vec![1], Some(false)).unwrap();
    assert!(matches!(cancel, InstallStep::Cancel));
}

#[test]
fn nothing_runs_without_a_terminal_or_yes() {
    match run(&options(), vec![candidate("ripgrep")], Vec::new(), Vec::new(), Some(true)).unwrap() {
        InstallStep::Refuse(plan, error) => {
            assert_eq!(plan.steps.len(), 1);
            assert_eq!(error.kind, ErrorKind::CannotConfirm);
        }
        other => panic!("unexpected step {other:?}"),
    }
}

fn search_command(packages: Vec<String>) -> Cli {
    Cli { command: Command::Search { packages, manager: vec![ManagerKind::Uv], json: true } }
}

#[test]
fn commands_are_checked_before_anything_else() {
    let refused = Cli { command: Command::Doctor { json: false } }.task(true, false).unwrap_err();
    assert_eq!(refused.kind, ErrorKind::RootRefused);
    let doctor = Cli { command: Command::Doctor { json: true } }.task(false, false).unwrap();
    assert!(matches!(doctor, Task::Doctor { json: true }));
    let bad = search_command(vec![" ".to_owned()]).task(false, false).unwrap_err();
    assert_eq!(bad.kind, ErrorKind::EmptyQuery);
    match search_command(vec!["a".to_owned(), "a".to_owned()]).task(false, false).unwrap() {
        Task::Search { packages, managers, json } => {
            assert_eq!(packages, ["a"]);
            assert_eq!(managers, [ManagerKind::Uv]);
            assert!(json);
        }
        other => panic!("unexpected task {other:?}"),
    }
    let command = Command::Install {
        packages: vec!["a".to_owned()],
        manager: Vec::new(),
        target: Some("user".into()),
        instance: None,
        dry_run: true,
        yes: false,
    };
    match (Cli { command }).task(false, true).unwrap() {
        Task::Install { packages, options } => {
            assert_eq!(packages, ["a"]);
            assert!(options.dry_run && options.interactive && !options.yes);
            assert_eq!(options.target.as_deref(), Some("user"));
        }
        other => panic!("unexpected task {other:?}"),
    }
}
