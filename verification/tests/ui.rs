use mate::context::ProjectContext;
use mate::model::{
    display_arg, Candidate, CommandSpec, EnvMap, InstallPlan, InstanceScope, ManagerInstance,
    ManagerKind, MatchKind, Selection, Target, TargetKind,
};
use mate::path::FilePath;
use mate::ui::{
    candidate_label, render_candidates, render_doctor, render_plan, render_warnings, terminal_safe,
    terminal_safe_complete, terminal_safe_with_limit,
};

#[test]
fn plan_render_discloses_command_environment_and_guards_deterministically() {
    let mut env = EnvMap::new();
    env.insert("ZETA", "last");
    env.insert("ALPHA", "first\nline");
    let long_argument = "x".repeat(600);
    let plan = InstallPlan {
        selections: Vec::new(),
        steps: vec![
            CommandSpec {
                label: "create environment\u{1b}".into(),
                program: FilePath::unix("/usr/bin/tool"),
                args: vec!["install".into(), "hello world".into(), long_argument.clone()],
                cwd: None,
                env,
                env_remove_prefixes: vec!["Z_".into(), "A_".into(), "A_".into()],
                must_not_exist: Some(FilePath::unix("/project/.venv")),
                requires_admin: true,
            },
            CommandSpec {
                label: "project install".into(),
                program: FilePath::unix("/usr/bin/tool"),
                args: vec!["sync".into()],
                cwd: Some(FilePath::unix("/workspace/app")),
                env: EnvMap::new(),
                env_remove_prefixes: Vec::new(),
                must_not_exist: None,
                requires_admin: false,
            },
        ],
    };

    let rendered = render_plan(&plan, &FilePath::unix("/actual/cwd"));

    assert!(rendered.contains("/usr/bin/tool install 'hello world'"));
    assert!(rendered.contains(long_argument.as_str()));
    assert!(rendered.contains("Label: create environment\\u{1b}"));
    assert!(rendered.contains("Working directory (inherited): /actual/cwd"));
    assert!(rendered.contains("Working directory (explicit): /workspace/app"));
    assert!(rendered.contains(
        "Unset inherited environment prefixes (every inherited variable whose name starts with the prefix; matching is case-insensitive on Windows):"
    ));
    assert_eq!(rendered.matches("       - A_*").count(), 1);
    assert!(rendered.find("       - A_*").unwrap() < rendered.find("       - Z_*").unwrap());
    assert!(rendered.contains("Set/override environment (applied after prefix removals):"));
    assert!(rendered.find("       - ALPHA=").unwrap() < rendered.find("       - ZETA=").unwrap());
    assert!(rendered.contains("ALPHA=first\\nline"));
    assert!(rendered.contains(
        "Plan-wide creation/overwrite guard: before any command, abort the entire plan if this filesystem entry exists, including as a broken symlink (and check again before this step): /project/.venv"
    ));
    assert!(rendered.contains("Privileges: administrator/root elevation required"));
    assert!(rendered.contains("All path guards are checked before step 1"));
    assert!(rendered.contains("steps run serially, stop on the first failure"));
    assert!(!rendered.contains('\u{1b}'));
}

#[test]
fn command_display_quotes_only_for_humans() {
    assert_eq!(display_arg("ripgrep"), "ripgrep");
    assert_eq!(display_arg("hello world"), "'hello world'");
    assert_eq!(display_arg("it's"), "'it'\"'\"'s'");
}

#[test]
fn odd_arguments_are_quoted_and_escaped() {
    assert_eq!(display_arg(""), "''");
    assert_eq!(display_arg("a\nb"), "'a\\nb'");
    assert_eq!(display_arg("@types/node@24.1.0"), "@types/node@24.1.0");
}

fn candidate() -> Candidate {
    Candidate {
        query: "ripgrep".into(),
        package: "ripgrep".into(),
        match_name: "ripgrep".into(),
        manager_instance_id: "apt:/usr/bin/apt-get".into(),
        manager: ManagerKind::Apt,
        source: "repo\u{7}".into(),
        version: None,
        description: Some("fast\tsearch".into()),
        score: 100,
        match_kind: MatchKind::Exact,
        verified: false,
    }
}

#[test]
fn candidates_are_shown_in_columns() {
    assert_eq!(
        candidate_label(&candidate()),
        "apt ripgrep                      version ?      score=100 unverified @ apt:/usr/bin/apt-get [repo\\u{7}]"
    );
    let known = Candidate { version: Some("14.1.1".into()), verified: true, ..candidate() };
    assert_eq!(
        candidate_label(&known),
        "apt ripgrep                      14.1.1         score=100 @ apt:/usr/bin/apt-get [repo\\u{7}]"
    );
}

#[test]
fn candidates_are_listed_by_query() {
    let text = render_candidates(
        &vec!["ripgrep".to_owned(), "other".to_owned()],
        &vec![candidate()],
    );
    let expected = format!(
        "\nripgrep:\n  {}\n      fast\\tsearch\n\nother:\n  (no matches)\n",
        candidate_label(&candidate())
    );
    assert_eq!(text, expected);
}

#[test]
fn warnings_are_listed() {
    assert_eq!(render_warnings(&Vec::new()), "");
    assert_eq!(
        render_warnings(&vec!["one\r".to_owned(), "two".to_owned()]),
        "\nWarnings:\n  - one\\r\n  - two\n"
    );
}

#[test]
fn the_doctor_reports_managers_and_targets() {
    let context = ProjectContext {
        cwd: FilePath::unix("/work/app"),
        project_root: Some(FilePath::unix("/work/app")),
        workspace_root: Some(FilePath::unix("/work")),
        targets: vec![Target {
            id: "venv:/work/app/.venv".into(),
            kind: TargetKind::PythonVenv,
            label: "create Python venv".into(),
            path: None,
            exists: false,
        }],
        markers: vec!["pyproject.toml".into(), "uv.lock".into()],
    };
    assert_eq!(
        render_doctor(&context, &Vec::new()),
        "Project: /work/app\nProject root: /work/app\nWorkspace root: /work\nMarkers: pyproject.toml, uv.lock\n\nManagers:\n  (none found)\n\nTargets:\n  venv:/work/app/.venv                 create Python venv (new)\n"
    );
    let instances = vec![ManagerInstance {
        id: "uv:/usr/bin/uv".into(),
        kind: ManagerKind::Uv,
        executable: FilePath::unix("/usr/bin/uv"),
        launcher_args: Vec::new(),
        version: "uv 0.8".into(),
        scope: InstanceScope::Generic,
    }];
    let bare = ProjectContext {
        project_root: None,
        workspace_root: None,
        targets: Vec::new(),
        markers: Vec::new(),
        ..context
    };
    assert_eq!(
        render_doctor(&bare, &instances),
        "Project: /work/app\n\nManagers:\n  uv /usr/bin/uv                          uv 0.8 [uv:/usr/bin/uv]\n\nTargets:\n"
    );
}

#[test]
fn a_plan_begins_with_what_was_selected() {
    let plan = InstallPlan {
        selections: vec![Selection {
            query: "rg".into(),
            candidate: candidate(),
            target: Target {
                id: "system".into(),
                kind: TargetKind::System,
                label: "system packages".into(),
                path: None,
                exists: true,
            },
        }],
        steps: vec![CommandSpec {
            label: "install".into(),
            program: FilePath::unix("/usr/bin/apt-get"),
            args: vec!["install".into()],
            cwd: None,
            env: EnvMap::new(),
            env_remove_prefixes: Vec::new(),
            must_not_exist: None,
            requires_admin: false,
        }],
    };
    let text = render_plan(&plan, &FilePath::unix("/"));
    assert!(text.starts_with(
        "\nInstallation plan:\n  rg -> apt:ripgrep -> system\n\nCommands:\n  1. /usr/bin/apt-get install\n     Label: install\n     Working directory (inherited): /\n     Unset inherited environment prefixes: (none)\n     Set/override environment: (none)\n     Plan-wide creation/overwrite guard: (no must-not-exist path precondition for this step)\n     Privileges: user context required; no elevation requested (mate refuses this plan when run as root)\n\nNo command above"
    ));
}

#[test]
fn foreign_text_is_made_safe_to_show() {
    assert_eq!(terminal_safe("plain"), "plain");
    assert_eq!(terminal_safe("a\u{1b}b\u{85}"), "a\\u{1b}b\\u{85}");
    assert_eq!(terminal_safe_with_limit("abcdef", Some(3)), "abc…");
    assert_eq!(terminal_safe_with_limit("abc", Some(3)), "abc");
    assert_eq!(terminal_safe(&"x".repeat(501)).chars().count(), 501);
    assert!(terminal_safe(&"x".repeat(501)).ends_with("x…"));
    assert_eq!(terminal_safe_complete(&"x".repeat(600)).len(), 600);
}

fn step_without(prefixes: &[&str]) -> InstallPlan {
    let step = CommandSpec {
        label: "label\r\u{7f}".into(),
        program: FilePath::unix("/usr/bin/to\tol"),
        args: vec!["one\ntwo".into()],
        cwd: Some(FilePath::unix("/work\u{85}")),
        env: EnvMap::new().with("NAME\n", "\u{1b}[2J"),
        env_remove_prefixes: prefixes.iter().map(|prefix| prefix.to_string()).collect(),
        must_not_exist: Some(FilePath::unix("/new\n")),
        requires_admin: false,
    };
    InstallPlan { selections: Vec::new(), steps: vec![step] }
}

#[test]
fn a_rendered_plan_ignores_the_order_of_prefixes() {
    let cwd = FilePath::unix("/cwd");
    let once = render_plan(&step_without(&["PIP_", "UV_"]), &cwd);
    assert_eq!(render_plan(&step_without(&["UV_", "PIP_", "UV_"]), &cwd), once);
    assert_ne!(render_plan(&step_without(&["PIP_"]), &cwd), once);
}

#[test]
fn a_rendered_plan_has_line_breaks_only_where_a_line_ends() {
    let rendered = render_plan(&step_without(&["PI\nP_"]), &FilePath::unix("/cwd"));
    assert!(rendered.chars().all(|c| c == '\n' || !c.is_control()));
    let plain = render_plan(
        &InstallPlan { selections: Vec::new(), steps: Vec::new() },
        &FilePath::unix("/cwd"),
    );
    assert_eq!(rendered.lines().count() - plain.lines().count(), 9);
    assert!(rendered.contains("       - PI\\nP_*"));
}
