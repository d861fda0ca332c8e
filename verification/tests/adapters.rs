use mate::adapters::lang::cargo::{check_exact_spec, validate_exact_spec, CargoAdapter};
use mate::adapters::lang::crates_io::{
    append_chunk, check_announced_length, parse_response, usable_crate, valid_crate_name,
    SearchCrate, MAX_RESPONSE_BYTES,
};
use mate::adapters::lang::node::npm::{
    package_scopes, parse_search as parse_npm_search, validate_exact_npm_spec, NpmAdapter,
};
use mate::adapters::lang::node::npx::NpxAdapter;
use mate::adapters::lang::pip::PipAdapter;
use mate::adapters::lang::pypi::{exact_lookup, lookup_url, normalize_name};
use mate::adapters::lang::uv::UvAdapter;
use mate::adapters::registry::{Discovery, Registry, SearchOutcome};
use mate::adapters::{
    reply_fits, score_match, validate_package_id, validate_query, ManagerAdapter, SearchReply,
    SearchRequest,
};
use mate::adapters::{apt, brew, pacman};
use mate::context::ProjectContext;
use mate::error::{Error, ErrorKind};
use mate::host::{Host, PathFacts};
use mate::model::{
    Candidate, InstanceScope, ManagerInstance, ManagerKind, MatchKind, Selection, Target,
    TargetKind,
};
use mate::path::{FilePath, Platform};
use mate::planner::resolved_spec;
use mate::process::CapturedOutput;

fn facts(path: &str) -> PathFacts {
    PathFacts {
        path: FilePath::unix(path),
        is_entry: true,
        exists: true,
        is_file: false,
        is_dir: false,
        mode: 0o755,
        owned_by_root: false,
        canonical: Ok(FilePath::unix(path)),
        content: None,
    }
}

fn directory(path: &str) -> PathFacts {
    PathFacts { is_dir: true, ..facts(path) }
}

fn file(path: &str) -> PathFacts {
    PathFacts { is_file: true, ..facts(path) }
}

fn host(paths: Vec<PathFacts>) -> Host {
    Host {
        platform: Platform::Unix,
        current_dir: Some(FilePath::unix("/project")),
        temp_dir: FilePath::unix("/tmp"),
        search_path: Vec::new(),
        env: Vec::new(),
        paths,
    }
}

fn instance(kind: ManagerKind, id: &str, executable: &str, scope: InstanceScope) -> ManagerInstance {
    ManagerInstance {
        id: id.into(),
        kind,
        executable: FilePath::unix(executable),
        launcher_args: Vec::new(),
        version: "1.0".into(),
        scope,
    }
}

fn empty_context(cwd: &str) -> ProjectContext {
    ProjectContext {
        cwd: FilePath::unix(cwd),
        project_root: None,
        workspace_root: None,
        targets: Vec::new(),
        markers: Vec::new(),
    }
}

fn target(id: &str, kind: TargetKind, path: Option<&str>, exists: bool) -> Target {
    Target { id: id.into(), kind, label: id.into(), path: path.map(FilePath::unix), exists }
}

fn texts(items: &[&str]) -> Vec<String> {
    items.iter().map(|item| item.to_string()).collect()
}

fn output(success: bool, stdout: &str, stderr: &str) -> CapturedOutput {
    CapturedOutput {
        success,
        code: Some(if success { 0 } else { 1 }),
        stdout: stdout.into(),
        stderr: stderr.into(),
    }
}

#[test]
fn parses_apt_cache_lines() {
    let found = apt::parse_search(
        "ripgrep - recursively searches directories\nelpa-rg - Emacs search UI\n",
        "ripgrep",
        "apt:test",
    );
    assert_eq!(found.len(), 2);
    assert_eq!(found[0].package, "ripgrep");
    assert_eq!(found[0].match_name, "ripgrep");
}

#[test]
fn ignores_brew_section_headers() {
    let found = brew::parse_search(
        "==> Formulae\nripgrep\n\n==> Casks\nripgrep-app\n",
        "ripgrep",
        "brew:test",
    );
    assert_eq!(found.len(), 2);
    assert_eq!(found[0].package, "ripgrep");
}

#[test]
fn parses_pacman_search_pairs() {
    let found = pacman::parse_search(
        "extra/ripgrep 14.1.1-1\n    A search tool\nextra/ripgrep-all 0.10.6-1\n    Search PDFs\n",
        "ripgrep",
        "pacman:test",
    );
    assert_eq!(found.len(), 2);
    assert_eq!(found[0].package, "extra/ripgrep");
    assert_eq!(found[0].version.as_deref(), Some("14.1.1-1"));
    assert_eq!(found[0].description.as_deref(), Some("A search tool"));
}

#[test]
fn accepts_only_exact_safe_crate_specs() {
    assert!(validate_exact_spec("ripgrep@14.1.1").is_ok());
    assert!(validate_exact_spec("tool@1.0.0-alpha.1+build").is_ok());
    assert!(validate_exact_spec("ripgrep").is_err());
    assert!(validate_exact_spec("--config@1.0.0").is_err());
    assert!(validate_exact_spec("bad@name@1.0.0").is_err());
}

#[test]
fn crate_specs_are_refused_for_what_is_wrong_with_them() {
    assert_eq!(validate_exact_spec("ripgrep").unwrap_err().kind, ErrorKind::NotPinned);
    assert_eq!(validate_exact_spec("rip grep@1.0.0").unwrap_err().kind, ErrorKind::InvalidName);
    assert_eq!(validate_exact_spec("ripgrep@latest").unwrap_err().kind, ErrorKind::InvalidVersion);
    assert!(check_exact_spec("ripgrep@latest", true).is_ok());
}

#[test]
fn plans_separate_locked_steps_and_one_creation_guard() {
    let adapter = CargoAdapter;
    let instance = ManagerInstance {
        id: "cargo:test".into(),
        kind: ManagerKind::Cargo,
        executable: FilePath::unix("/usr/bin/cargo"),
        launcher_args: Vec::new(),
        version: "cargo 1.90.0".into(),
        scope: InstanceScope::Generic,
    };
    let target = Target {
        id: "cargo-root:/project/.mate/cargo".into(),
        kind: TargetKind::CargoRoot,
        label: "project Cargo root".into(),
        path: Some(FilePath::unix("/project/.mate/cargo")),
        exists: false,
    };
    let context = ProjectContext {
        cwd: FilePath::unix("/project"),
        project_root: Some(FilePath::unix("/project")),
        workspace_root: Some(FilePath::unix("/project")),
        targets: vec![target.clone()],
        markers: vec!["Cargo.toml".into()],
    };
    let steps = adapter
        .plan(
            &host(Vec::new()),
            &instance,
            &vec!["ripgrep@14.1.1".into(), "cargo-edit@0.13.7".into()],
            &target,
            &context,
        )
        .unwrap();
    assert_eq!(steps.len(), 2);
    assert_eq!(steps[0].must_not_exist, Some(FilePath::unix("/project/.mate/cargo")));
    assert_eq!(steps[1].must_not_exist, None);
    assert!(steps[0].args.iter().any(|arg| arg == "--locked"));
    assert!(steps[0].args.iter().any(|arg| arg == "--registry"));
    assert!(!steps[0].args.iter().any(|arg| arg == "--force"));
    assert!(!steps[0].args.iter().any(|arg| arg == "--no-track"));
}

fn search_crate(name: Option<&str>, version: Option<&str>, description: Option<&str>) -> SearchCrate {
    SearchCrate {
        name: name.map(str::to_owned),
        max_version: version.map(str::to_owned),
        description: description.map(str::to_owned),
    }
}

fn crates_of(body: &[u8]) -> Vec<SearchCrate> {
    let value: serde_json::Value = serde_json::from_slice(body).unwrap();
    let text = |entry: &serde_json::Value, key: &str| {
        entry.get(key).and_then(|member| member.as_str()).map(str::to_owned)
    };
    value
        .get("crates")
        .and_then(|crates| crates.as_array())
        .unwrap()
        .iter()
        .map(|entry| SearchCrate {
            name: text(entry, "name"),
            max_version: text(entry, "max_version"),
            description: text(entry, "description"),
        })
        .collect()
}

#[test]
fn parses_forward_compatible_registry_results() {
    let body = br#"{
        "crates": [
            {
                "name": "ripgrep",
                "max_version": "14.1.1",
                "description": "fast search",
                "future_field": true
            },
            {"name": "empty-summary", "max_version": "1.0.0", "description": ""},
            {"name": "missing-version"},
            {"name": "bad@name", "max_version": "1.0.0"}
        ],
        "meta": {"total": 4}
    }"#;
    let packages = parse_response(&crates_of(body));
    assert_eq!(packages.len(), 2);
    assert_eq!(packages[0].name, "ripgrep");
    assert_eq!(packages[0].version, "14.1.1");
    assert_eq!(packages[1].description, None);
}

#[test]
fn crates_with_odd_versions_are_left_out() {
    let list = vec![
        search_crate(Some("good"), Some("1.2.3"), Some("kept")),
        search_crate(Some("bad"), Some("1.2"), None),
        search_crate(None, Some("1.2.3"), None),
    ];
    let packages = parse_response(&list);
    assert_eq!(packages.len(), 1);
    assert_eq!(packages[0].description.as_deref(), Some("kept"));
    assert!(usable_crate(&list[1], true).is_some());
    assert!(usable_crate(&list[1], false).is_none());
}

#[test]
fn at_most_forty_crates_are_kept() {
    let list: Vec<SearchCrate> =
        (0..60).map(|i| search_crate(Some(&format!("crate{i}")), Some("1.0.0"), None)).collect();
    assert_eq!(parse_response(&list).len(), 40);
}

#[test]
fn oversized_responses_are_refused() {
    assert!(check_announced_length(None).is_ok());
    assert!(check_announced_length(Some(MAX_RESPONSE_BYTES as u64)).is_ok());
    let error = check_announced_length(Some(MAX_RESPONSE_BYTES as u64 + 1)).unwrap_err();
    assert_eq!(error.kind, ErrorKind::ResponseTooLarge);
    assert_eq!(error.text(), "crates.io response exceeds the safety limit");
    let mut body = vec![0u8; MAX_RESPONSE_BYTES - 1];
    assert!(append_chunk(&mut body, &vec![1]).is_ok());
    assert_eq!(body.len(), MAX_RESPONSE_BYTES);
    assert!(append_chunk(&mut body, &vec![1]).is_err());
    assert_eq!(body.len(), MAX_RESPONSE_BYTES);
}

#[test]
fn validates_crate_names_and_semver_input_boundary() {
    assert!(valid_crate_name("cargo-edit"));
    assert!(valid_crate_name("cargo_edit2"));
    assert!(!valid_crate_name(""));
    assert!(!valid_crate_name("--config=evil"));
    assert!(!valid_crate_name("bad@crate"));
    assert!(!valid_crate_name("包"));
}

#[test]
fn crate_names_may_be_sixty_four_bytes_long() {
    assert!(valid_crate_name(&"a".repeat(64)));
    assert!(!valid_crate_name(&"a".repeat(65)));
}

#[test]
fn parses_structured_npm_search_results() {
    let found = parse_npm_search(
        r#"[
            {
                "name": "typescript",
                "version": "5.9.2",
                "description": "TypeScript is a language"
            },
            {"name": "@types/node", "version": "24.1.0"},
            {"name": "missing-version"}
        ]"#,
        "typescript",
        "npm:test",
    )
    .unwrap();
    assert_eq!(found.len(), 2);
    assert_eq!(found[0].package, "typescript");
    assert_eq!(found[0].version.as_deref(), Some("5.9.2"));
    assert_eq!(found[0].score, 100);
    assert_eq!(found[1].package, "@types/node");
}

#[test]
fn npm_output_that_is_no_array_is_refused() {
    let malformed = parse_npm_search("{", "typescript", "npm:test").unwrap_err();
    assert_eq!(malformed.kind, ErrorKind::InvalidSearchOutput);
    assert!(malformed.text().starts_with("npm search returned invalid JSON: "));
    let object = parse_npm_search("{}", "typescript", "npm:test").unwrap_err();
    assert_eq!(object.text(), "npm search returned a non-array JSON value");
}

#[test]
fn npm_texts_are_trimmed() {
    let found = parse_npm_search(
        r#"[{"name": " left-pad ", "version": " 1.3.0 ", "description": "  "}]"#,
        "left",
        "npm:test",
    )
    .unwrap();
    assert_eq!(found[0].package, "left-pad");
    assert_eq!(found[0].version.as_deref(), Some("1.3.0"));
    assert_eq!(found[0].description, None);
    assert_eq!(found[0].score, 80);
}

#[test]
fn accepts_only_exact_registry_specs() {
    assert!(validate_exact_npm_spec("typescript@5.9.2").is_ok());
    assert!(validate_exact_npm_spec("@types/node@24.1.0").is_ok());
    assert!(validate_exact_npm_spec("typescript").is_err());
    assert!(validate_exact_npm_spec("typescript@latest").is_err());
    assert!(validate_exact_npm_spec("@types/node").is_err());
}

#[test]
fn scopes_are_named_once() {
    let packages =
        texts(&["@types/node@24.1.0", "left-pad@1.3.0", "@types/react@19.0.0", "@babel/core@7.0.0"]);
    assert_eq!(package_scopes(&packages), texts(&["@babel", "@types"]));
}

#[test]
fn project_plan_preserves_the_node_launcher_and_safety_flags() {
    let path = FilePath::unix("node-project");
    let target = Target {
        id: "node-project:test".into(),
        kind: TargetKind::NodeProject,
        label: "Node project".into(),
        path: Some(path.clone()),
        exists: false,
    };
    let context = ProjectContext {
        cwd: path.clone(),
        project_root: Some(path.clone()),
        workspace_root: Some(path.clone()),
        targets: vec![target.clone()],
        markers: vec!["package.json".into()],
    };
    let instance = ManagerInstance {
        id: "npm:node".into(),
        kind: ManagerKind::Npm,
        executable: FilePath::unix("node"),
        launcher_args: vec!["npm-cli.js".into()],
        version: "11.9.0".into(),
        scope: InstanceScope::NodeGlobal(FilePath::unix("npm-prefix")),
    };

    let plan = NpmAdapter
        .plan(
            &host(Vec::new()),
            &instance,
            &vec!["typescript@5.9.2".into(), "@types/node@24.1.0".into()],
            &target,
            &context,
        )
        .unwrap();
    assert_eq!(plan.len(), 1);
    assert_eq!(plan[0].args[0], "npm-cli.js");
    assert!(plan[0].args.iter().any(|arg| arg == "--save-exact"));
    assert!(plan[0].args.iter().any(|arg| arg == "--ignore-scripts"));
    assert!(plan[0]
        .args
        .iter()
        .any(|arg| arg == "--@types:registry=https://registry.npmjs.org/"));
    assert_eq!(plan[0].cwd.as_ref(), Some(&path));
    assert_eq!(plan[0].must_not_exist, Some(path.child("node_modules")));
}

#[test]
fn global_plan_is_bound_to_the_discovered_prefix() {
    let prefix = FilePath::unix("npm-prefix");
    let target = Target {
        id: "node-global:test".into(),
        kind: TargetKind::NodeGlobal,
        label: "npm global prefix".into(),
        path: Some(prefix.clone()),
        exists: true,
    };
    let context = empty_context("project");
    let instance = ManagerInstance {
        id: "npm:test".into(),
        kind: ManagerKind::Npm,
        executable: FilePath::unix("npm"),
        launcher_args: Vec::new(),
        version: "11.9.0".into(),
        scope: InstanceScope::NodeGlobal(prefix.clone()),
    };

    let plan = NpmAdapter
        .plan(&host(Vec::new()), &instance, &vec!["typescript@5.9.2".into()], &target, &context)
        .unwrap();
    let prefix_index = plan[0].args.iter().position(|arg| arg == "--prefix").unwrap();
    assert!(plan[0].args.iter().any(|arg| arg == "--global"));
    assert_eq!(plan[0].args[prefix_index + 1], prefix.text());
}

fn npx_instance() -> ManagerInstance {
    ManagerInstance {
        id: "npx:test".into(),
        kind: ManagerKind::Npx,
        executable: FilePath::unix("npx"),
        launcher_args: Vec::new(),
        version: "11.9.0".into(),
        scope: InstanceScope::Generic,
    }
}

#[test]
fn refuses_package_search() {
    assert!(!NpxAdapter.supports_search());
    assert!(!NpxAdapter.supports_install());
    let error = NpxAdapter
        .search_request(&host(Vec::new()), &npx_instance(), "typescript")
        .unwrap_err();
    assert!(error.text().contains("not a persistent installer"));
}

#[test]
fn refuses_install_plans() {
    let target = Target {
        id: "user".into(),
        kind: TargetKind::User,
        label: "user".into(),
        path: None,
        exists: true,
    };
    let error = NpxAdapter
        .plan(
            &host(Vec::new()),
            &npx_instance(),
            &vec!["typescript@5.9.2".into()],
            &target,
            &empty_context("project"),
        )
        .unwrap_err();
    assert!(error.text().contains("future mate exec"));
}

#[test]
fn applies_python_name_normalization() {
    assert_eq!(normalize_name("My_Pkg.Name").unwrap(), "my-pkg-name");
    assert!(normalize_name("requests>=2").is_err());
}

#[test]
fn a_canonical_python_name_stays() {
    assert_eq!(normalize_name("my-pkg-name").unwrap(), "my-pkg-name");
    assert_eq!(normalize_name("a-_.b").unwrap(), "a-b");
    assert!(normalize_name("").is_err());
    assert_eq!(lookup_url("my-pkg-name"), "https://pypi.org/pypi/my-pkg-name/json");
}

#[test]
fn blank_summaries_are_dropped() {
    let blank = exact_lookup("requests".into(), "2.32.4".into(), &Some("  ".into()));
    assert_eq!(blank.summary, None);
    let kept = exact_lookup("requests".into(), "2.32.4".into(), &Some(" http ".into()));
    assert_eq!(kept.summary.as_deref(), Some(" http "));
}

#[test]
fn rejects_option_like_package_ids() {
    assert!(validate_package_id("ripgrep").is_ok());
    assert!(validate_package_id("--config").is_err());
    assert!(validate_package_id("bad\nname").is_err());
}

#[test]
fn rejects_option_like_queries() {
    assert!(validate_query("ripgrep").is_ok());
    assert!(validate_query("--help").is_err());
}

#[test]
fn bad_queries_are_refused_for_what_is_wrong_with_them() {
    assert_eq!(validate_query("  ").unwrap_err().kind, ErrorKind::EmptyQuery);
    assert_eq!(validate_query("--help").unwrap_err().kind, ErrorKind::OptionLikeQuery);
    assert_eq!(validate_query("a\tb").unwrap_err().kind, ErrorKind::ControlInQuery);
    assert_eq!(validate_package_id("").unwrap_err().kind, ErrorKind::EmptyPackageId);
    assert_eq!(validate_package_id("-x").unwrap_err().kind, ErrorKind::OptionLikePackageId);
    assert_eq!(validate_package_id("a\u{7f}").unwrap_err().kind, ErrorKind::ControlInPackageId);
    assert!(validate_query("--help").unwrap_err().text().contains("\"--help\""));
}

#[test]
fn names_are_scored() {
    assert_eq!(score_match("ripgrep", "RipGrep"), 100);
    assert_eq!(score_match("rip", "ripgrep"), 80);
    assert_eq!(score_match("grep", "ripgrep"), 60);
}

#[test]
fn default_search_skips_execution_only_npx_instances() {
    let registry = Registry::standard();
    let jobs = registry
        .search_jobs(&host(Vec::new()), &vec![npx_instance()], &vec!["typescript".into()])
        .unwrap();
    assert!(jobs.is_empty());
    let (candidates, warnings) = Registry::search(&Vec::new());
    assert!(candidates.is_empty());
    assert!(warnings.is_empty());
    assert!(registry.ensure_searchable(&vec![ManagerKind::Npx]).is_err());
    assert!(registry.ensure_installable(&vec![ManagerKind::Npx]).is_err());
}

#[test]
fn every_kind_has_an_adapter() {
    let registry = Registry::standard();
    for kind in [
        ManagerKind::Apt,
        ManagerKind::Pacman,
        ManagerKind::Brew,
        ManagerKind::Cargo,
        ManagerKind::Npm,
        ManagerKind::Npx,
        ManagerKind::Pip,
        ManagerKind::Uv,
    ] {
        assert_eq!(registry.adapter(kind).unwrap().kind(), kind);
        assert_eq!(registry.ensure_installable(&vec![kind]).is_ok(), kind != ManagerKind::Npx);
    }
    let none = Registry { adapters: Vec::new() };
    let error = none.adapter(ManagerKind::Apt).unwrap_err();
    assert_eq!(error.kind, ErrorKind::NoAdapter);
    assert_eq!(error.text(), "no adapter registered for apt");
}

#[test]
fn only_the_managers_that_are_named_are_selected() {
    let registry = Registry::standard();
    assert_eq!(registry.selected(&Vec::new()).len(), 8);
    let chosen = registry.selected(&vec![ManagerKind::Uv, ManagerKind::Apt]);
    assert_eq!(chosen.len(), 2);
    assert_eq!(chosen[0].kind(), ManagerKind::Apt);
}

#[test]
fn instances_come_in_the_order_of_their_ids() {
    let results = vec![
        Discovery {
            kind: ManagerKind::Uv,
            result: Ok(vec![instance(ManagerKind::Uv, "uv:/b", "/b", InstanceScope::Generic)]),
        },
        Discovery {
            kind: ManagerKind::Pip,
            result: Err(Error::new(ErrorKind::CannotRun, "no pip here")),
        },
        Discovery {
            kind: ManagerKind::Apt,
            result: Ok(vec![instance(ManagerKind::Apt, "apt:/a", "/a", InstanceScope::Generic)]),
        },
    ];
    let (instances, warnings) = Registry::discover(&results);
    assert_eq!(instances[0].id, "apt:/a");
    assert_eq!(instances[1].id, "uv:/b");
    assert_eq!(warnings, texts(&["pip: no pip here"]));
}

fn candidate(query: &str, package: &str, manager: ManagerKind, score: u16) -> Candidate {
    Candidate {
        query: query.into(),
        package: package.into(),
        match_name: package.into(),
        manager_instance_id: "test".into(),
        manager,
        source: "test".into(),
        version: None,
        description: None,
        score,
        match_kind: MatchKind::Unmatched,
        verified: true,
    }
}

#[test]
fn found_candidates_are_ordered_and_failures_reported() {
    let results = vec![
        SearchOutcome {
            instance_id: "b".into(),
            query: "x".into(),
            result: Err(Error {
                kind: ErrorKind::TimedOut,
                message: "gave up".into(),
                cause: Some("too slow".into()),
            }),
        },
        SearchOutcome {
            instance_id: "a".into(),
            query: "x".into(),
            result: Ok(vec![
                candidate("x", "low", ManagerKind::Apt, 60),
                candidate("x", "late", ManagerKind::Uv, 100),
                candidate("x", "early", ManagerKind::Apt, 100),
            ]),
        },
        SearchOutcome {
            instance_id: "a".into(),
            query: "q".into(),
            result: Err(Error::new(ErrorKind::SearchFailed, "failed")),
        },
    ];
    let (candidates, warnings) = Registry::search(&results);
    let packages: Vec<&str> = candidates.iter().map(|c| c.package.as_str()).collect();
    assert_eq!(packages, ["early", "late", "low"]);
    assert_eq!(
        warnings,
        texts(&["a, query \"q\": failed", "b, query \"x\": gave up: too slow"])
    );
}

#[test]
fn apt_is_searched_and_planned() {
    let adapter = apt::AptAdapter;
    let known = host(vec![
        PathFacts { owned_by_root: true, ..file("/usr/bin/apt-cache") },
        PathFacts { owned_by_root: true, ..file("/usr/bin/apt-get") },
    ]);
    let apt = instance(ManagerKind::Apt, "apt:/usr/bin/apt-get", "/usr/bin/apt-get", InstanceScope::Generic);
    match adapter.search_request(&known, &apt, "ripgrep").unwrap() {
        SearchRequest::Run(request) => {
            assert_eq!(request.program, FilePath::unix("/usr/bin/apt-cache"));
            assert_eq!(request.args.last().map(String::as_str), Some("ripgrep"));
        }
        other => panic!("unexpected request {other:?}"),
    }
    let missing = adapter.search_request(&host(Vec::new()), &apt, "ripgrep").unwrap_err();
    assert_eq!(missing.kind, ErrorKind::SearchToolMissing);

    let reply = SearchReply::Output(output(true, "ripgrep - search\n", ""));
    assert!(reply_fits(ManagerKind::Apt, &reply));
    assert!(!reply_fits(ManagerKind::Pip, &reply));
    assert_eq!(adapter.search(&apt, "ripgrep", &reply).unwrap().len(), 1);
    let failed = SearchReply::Output(output(false, "", "broken\u{1b}"));
    let error = adapter.search(&apt, "ripgrep", &failed).unwrap_err();
    assert_eq!(error.kind, ErrorKind::SearchFailed);
    assert!(error.text().contains("broken\\u{1b}"));

    let system = target("system", TargetKind::System, None, true);
    let steps = adapter
        .plan(&known, &apt, &texts(&["ripgrep", "jq"]), &system, &empty_context("/project"))
        .unwrap();
    assert_eq!(steps.len(), 1);
    assert!(steps[0].requires_admin);
    assert_eq!(steps[0].args, texts(&["install", "--", "ripgrep", "jq"]));
    let venv = target("venv:/v", TargetKind::PythonVenv, Some("/v"), true);
    let refused = adapter
        .plan(&known, &apt, &texts(&["ripgrep"]), &venv, &empty_context("/project"))
        .unwrap_err();
    assert_eq!(refused.kind, ErrorKind::UnsupportedTarget);
}

#[test]
fn pip_installs_pinned_packages_in_one_step() {
    let pip = instance(ManagerKind::Pip, "pip:/usr/bin/pip", "/usr/bin/pip", InstanceScope::Generic);
    let user = target("user", TargetKind::User, None, true);
    let steps = PipAdapter
        .plan(
            &host(Vec::new()),
            &pip,
            &texts(&["requests==2.32.4", "rich==14.0.0"]),
            &user,
            &empty_context("/project"),
        )
        .unwrap();
    assert_eq!(steps.len(), 1);
    assert!(steps[0].args.iter().any(|arg| arg == "--user"));
    assert!(steps[0].args.ends_with(&texts(&["requests==2.32.4", "rich==14.0.0"])));
    assert!(!steps[0].requires_admin);
}

#[test]
fn uv_creates_a_new_environment_first() {
    let uv = instance(ManagerKind::Uv, "uv:/usr/bin/uv", "/usr/bin/uv", InstanceScope::Generic);
    let venv = target("venv:/project/.venv", TargetKind::PythonVenv, Some("/project/.venv"), false);
    let steps = UvAdapter
        .plan(
            &host(Vec::new()),
            &uv,
            &texts(&["requests==2.32.4"]),
            &venv,
            &empty_context("/project"),
        )
        .unwrap();
    assert_eq!(steps.len(), 2);
    assert_eq!(steps[0].must_not_exist, Some(FilePath::unix("/project/.venv")));
    assert_eq!(steps[1].must_not_exist, None);
    assert!(steps[1].args.iter().any(|arg| arg == "requests==2.32.4"));
}

#[test]
fn homebrew_installs_formulae_for_the_user() {
    let brew_instance =
        instance(ManagerKind::Brew, "brew:/opt/brew", "/opt/brew", InstanceScope::Generic);
    let context = ProjectContext {
        targets: vec![target("user", TargetKind::User, None, true), target("system", TargetKind::System, None, true)],
        ..empty_context("/project")
    };
    let targets = brew::BrewAdapter.compatible_targets(&host(Vec::new()), &brew_instance, &context);
    assert_eq!(targets.len(), 1);
    assert_eq!(targets[0].id, "user");
    let steps = brew::BrewAdapter
        .plan(&host(Vec::new()), &brew_instance, &texts(&["ripgrep"]), &targets[0], &context)
        .unwrap();
    assert!(steps[0].args.iter().any(|arg| arg == "--formula"));
    assert!(!steps[0].requires_admin);
}

#[test]
fn npm_prefix_comes_from_what_npm_prints() {
    let launcher_host = host(vec![directory("/"), directory("/npm"), directory("/npm/prefix")]);
    let npm = instance(
        ManagerKind::Npm,
        "npm:/usr/bin/npm",
        "/usr/bin/npm",
        InstanceScope::NodeGlobal(FilePath::unix("/npm/prefix")),
    );
    let targets = NpmAdapter.compatible_targets(&launcher_host, &npm, &empty_context("/project"));
    assert_eq!(targets.len(), 1);
    assert_eq!(targets[0].id, "node-global:/npm/prefix");
    assert!(targets[0].exists);
}

fn chosen(candidate: Candidate) -> Selection {
    Selection {
        query: candidate.query.clone(),
        candidate,
        target: target("user", TargetKind::User, None, true),
    }
}

#[test]
fn found_crates_can_be_planned() {
    let cargo = instance(ManagerKind::Cargo, "cargo:c", "/usr/bin/cargo", InstanceScope::Generic);
    let reply = SearchReply::Crates(vec![
        search_crate(Some("ripgrep"), Some("14.1.1"), None),
        search_crate(Some("tool_a"), Some("1.0.0-alpha.1+build"), None),
        search_crate(Some("bad@name"), Some("1.0.0"), None),
        search_crate(Some("odd"), Some("1.0.0@2"), None),
    ]);
    let specs: Vec<String> = CargoAdapter
        .search(&cargo, "ripgrep", &reply)
        .unwrap()
        .into_iter()
        .map(|candidate| resolved_spec(&chosen(candidate)))
        .collect();
    assert_eq!(specs, texts(&["ripgrep@14.1.1", "tool_a@1.0.0-alpha.1+build"]));
    for spec in &specs {
        assert!(validate_package_id(spec).is_ok());
        assert!(validate_exact_spec(spec).is_ok());
    }
}

#[test]
fn found_npm_packages_can_be_planned() {
    let npm = instance(ManagerKind::Npm, "npm:n", "/usr/bin/npm", InstanceScope::Generic);
    let reply = SearchReply::Output(output(
        true,
        r#"[{"name": "@types/node", "version": " 24.1.0 "},
            {"name": "typescript", "version": "5.9.2-rc.1"},
            {"name": "-f", "version": "1.0.0"}]"#,
        "",
    ));
    let specs: Vec<String> = NpmAdapter
        .search(&npm, "node", &reply)
        .unwrap()
        .into_iter()
        .map(|candidate| resolved_spec(&chosen(candidate)))
        .collect();
    assert_eq!(specs, texts(&["@types/node@24.1.0", "typescript@5.9.2-rc.1"]));
    for spec in &specs {
        assert!(validate_package_id(spec).is_ok());
        assert!(validate_exact_npm_spec(spec).is_ok());
    }
}

#[test]
fn found_distributions_are_pinned() {
    let pip = instance(ManagerKind::Pip, "pip:p", "/usr/bin/pip", InstanceScope::Generic);
    let package = exact_lookup("requests".into(), "2.32.4".into(), &None);
    let found = PipAdapter.search(&pip, "Requests", &SearchReply::Pypi(Some(package))).unwrap();
    assert_eq!(found.len(), 1);
    for candidate in found {
        assert_eq!(candidate.manager, ManagerKind::Pip);
        assert_eq!(resolved_spec(&chosen(candidate)), "requests==2.32.4");
    }
}

#[test]
fn offered_targets_can_be_planned_for() {
    let context = ProjectContext {
        targets: vec![
            target("system", TargetKind::System, None, true),
            target("user", TargetKind::User, None, true),
            target("cargo:/home/me/.cargo", TargetKind::CargoRoot, Some("/home/me/.cargo"), true),
            target("node:/project", TargetKind::NodeProject, Some("/project"), true),
            target("venv:/project/.venv", TargetKind::PythonVenv, Some("/project/.venv"), false),
        ],
        ..empty_context("/project")
    };
    let here = host(vec![directory("/npm")]);
    let mut offered = Vec::new();
    for kind in [
        ManagerKind::Apt,
        ManagerKind::Pacman,
        ManagerKind::Brew,
        ManagerKind::Cargo,
        ManagerKind::Pip,
        ManagerKind::Uv,
        ManagerKind::Npm,
        ManagerKind::Npx,
    ] {
        let adapter = Registry::standard().adapter(kind).unwrap();
        let scope = if kind == ManagerKind::Npm {
            InstanceScope::NodeGlobal(FilePath::unix("/npm"))
        } else {
            InstanceScope::Generic
        };
        let manager = instance(kind, "manager", "/usr/bin/manager", scope);
        let targets = adapter.compatible_targets(&here, &manager, &context);
        offered.push(targets.len());
        for place in &targets {
            let packages = texts(&["tool@1.0.0"]);
            let steps = adapter.plan(&here, &manager, &packages, place, &context).unwrap();
            assert!(steps.iter().any(|step| step.args.contains(&packages[0])));
        }
    }
    assert_eq!(offered, vec![1, 1, 1, 1, 1, 2, 2, 0]);
}
