use mate::context::{
    add_cargo_target, add_configured_python_target, add_node_targets, detect_python_environment,
    environment_path, locate_project, nearest_marker_root, node_manager_hint, package_json,
    python_environment_python, select_cargo_install_root, venv_python, ProjectContext,
    PythonEnvironment,
};
use mate::host::{EnvPath, Host, PathFacts};
use mate::json::{
    find_member, json_member, json_record, json_records, JsonEntry, JsonMember, JsonObject, JsonText,
};
use mate::model::TargetKind;
use mate::path::{FilePath, Platform};
use mate::platform::{canonicalize, resolve_for_creation};

fn entry(path: &str) -> PathFacts {
    PathFacts {
        path: FilePath::unix(path),
        is_entry: true,
        exists: true,
        is_file: false,
        is_dir: false,
        mode: 0o755,
        owned_by_root: false,
        canonical: Ok(FilePath::unix(path)),
        content: None,
    }
}

fn directory(path: &str) -> PathFacts {
    PathFacts { is_dir: true, ..entry(path) }
}

fn file(path: &str, content: &[u8]) -> PathFacts {
    PathFacts { is_file: true, content: Some(content.to_vec()), ..entry(path) }
}

fn host(paths: Vec<PathFacts>) -> Host {
    Host {
        platform: Platform::Unix,
        current_dir: None,
        temp_dir: FilePath::unix("/tmp"),
        search_path: Vec::new(),
        env: Vec::new(),
        paths,
    }
}

#[test]
fn separates_nested_manifest_from_vcs_workspace() {
    let known = host(vec![
        directory("/t"),
        directory("/t/repo"),
        directory("/t/repo/.git"),
        directory("/t/repo/packages"),
        directory("/t/repo/packages/app"),
        file("/t/repo/packages/app/package.json", b"{}"),
    ]);
    let app = FilePath::unix("/t/repo/packages/app");
    let canonical_app = canonicalize(&known, &app).unwrap();
    let roots = locate_project(&known, &canonical_app);
    let expected_repository = canonicalize(&known, &FilePath::unix("/t/repo")).unwrap();
    assert_eq!(roots.project, Some(canonical_app));
    assert_eq!(roots.workspace, Some(expected_repository));
    assert_eq!(roots.markers, vec!["package.json".to_owned()]);
}

#[test]
fn detects_conda_environment_by_interpreter_and_metadata() {
    let known = host(vec![
        directory("/t/conda"),
        directory("/t/conda/conda-meta"),
        directory("/t/conda/bin"),
        file("/t/conda/bin/python", b""),
    ]);
    assert_eq!(
        detect_python_environment(&known, &FilePath::unix("/t/conda")),
        Some(PythonEnvironment::Conda)
    );
}

#[test]
fn environments_need_an_interpreter_and_a_mark() {
    let venv = host(vec![file("/v/bin/python", b""), file("/v/pyvenv.cfg", b"")]);
    assert_eq!(
        detect_python_environment(&venv, &FilePath::unix("/v")),
        Some(PythonEnvironment::Venv)
    );
    assert_eq!(
        python_environment_python(&venv, &FilePath::unix("/v")),
        Some(FilePath::unix("/v/bin/python"))
    );
    let bare = host(vec![file("/v/pyvenv.cfg", b"")]);
    assert_eq!(detect_python_environment(&bare, &FilePath::unix("/v")), None);
    assert_eq!(venv_python(Platform::Unix, &FilePath::unix("/v")).text(), "/v/bin/python");
    assert_eq!(
        venv_python(Platform::Windows, &FilePath::windows("C:\\v")).text(),
        "C:\\v\\Scripts\\python.exe"
    );
}

#[test]
fn missing_uv_project_environment_becomes_a_creation_target() {
    let known = host(vec![directory("/"), directory("/t")]);
    let environment = FilePath::unix("/t/custom-python");
    let mut targets = Vec::new();
    let mut seen = Vec::new();

    assert!(add_configured_python_target(
        &known,
        &mut targets,
        &mut seen,
        "UV_PROJECT_ENVIRONMENT",
        &environment,
    ));
    assert_eq!(targets.len(), 1);
    assert_eq!(targets[0].kind, TargetKind::PythonVenv);
    let expected = resolve_for_creation(&known, &environment).unwrap();
    assert_eq!(targets[0].path.as_ref(), Some(&expected));
    assert!(!targets[0].exists);

    let mut ignored = Vec::new();
    assert!(!add_configured_python_target(
        &known,
        &mut ignored,
        &mut Vec::new(),
        "VIRTUAL_ENV",
        &FilePath::unix("/t/stale-venv"),
    ));
    assert!(ignored.is_empty());
}

fn node_workspace() -> Host {
    host(vec![
        directory("/t/workspace"),
        directory("/t/workspace/packages"),
        directory("/t/workspace/packages/app"),
        file(
            "/t/workspace/package.json",
            br#"{"private":true,"workspaces":["packages/*"],"packageManager":"npm@11.4.0"}"#,
        ),
        file("/t/workspace/packages/app/package.json", br#"{"name":"app"}"#),
    ])
}

#[test]
fn detects_nearest_node_project_and_ancestor_workspace() {
    let known = node_workspace();
    let mut targets = Vec::new();
    add_node_targets(&known, &mut targets, &FilePath::unix("/t/workspace/packages/app"));
    assert_eq!(targets.len(), 2);
    assert_eq!(targets[0].kind, TargetKind::NodeProject);
    assert_eq!(targets[1].kind, TargetKind::NodeWorkspace);
    assert!(targets[1].label.contains("(npm;"));
    assert!(targets.iter().all(|target| target.exists));
}

#[test]
fn members_of_a_manifest_are_read() {
    let known = node_workspace();
    let root = FilePath::unix("/t/workspace");
    assert_eq!(package_json(&known, &root, "workspaces"), Some(JsonMember::Array));
    assert_eq!(
        package_json(&known, &root, "packageManager"),
        Some(JsonMember::Text("npm@11.4.0".into()))
    );
    assert_eq!(package_json(&known, &root, "private"), Some(JsonMember::Other));
    assert_eq!(package_json(&known, &root, "missing"), None);
    assert_eq!(node_manager_hint(&known, &root), "npm");
}

#[test]
fn cargo_install_root_uses_documented_precedence() {
    let known = host(vec![directory("/"), directory("/t"), directory("/t/home")]);
    let cwd = FilePath::unix("/t");
    let install = FilePath::unix("install-root");
    let cargo_home = FilePath::unix("cargo-home");
    let home = FilePath::unix("/t/home");

    let (selected, source) = select_cargo_install_root(
        &known,
        &cwd,
        Some(install),
        Some(cargo_home),
        Some(home.clone()),
    )
    .unwrap();
    assert_eq!(selected, cwd.child("install-root"));
    assert_eq!(source, "CARGO_INSTALL_ROOT");

    let (selected, source) = select_cargo_install_root(
        &known,
        &cwd,
        None,
        Some(FilePath::unix("cargo-home")),
        Some(home.clone()),
    )
    .unwrap();
    assert_eq!(selected, cwd.child("cargo-home"));
    assert_eq!(source, "CARGO_HOME");

    let (selected, _) = select_cargo_install_root(&known, &cwd, None, None, Some(home)).unwrap();
    assert_eq!(selected, FilePath::unix("/t/home/.cargo"));
    assert!(select_cargo_install_root(&known, &cwd, None, None, None).is_none());
}

#[test]
fn cargo_targets_are_deduplicated_by_resolved_root() {
    let known = host(vec![directory("/"), directory("/t")]);
    let root = FilePath::unix("/t/root");
    let mut targets = Vec::new();
    add_cargo_target(&known, &mut targets, &root, "one");
    add_cargo_target(&known, &mut targets, &root.child("missing").child(".."), "two");
    assert_eq!(targets.len(), 1);
    assert_eq!(targets[0].kind, TargetKind::CargoRoot);
}

#[test]
fn a_cargo_root_is_listed_once() {
    let known = host(vec![directory("/"), directory("/t"), directory("/t/root")]);
    let mut targets = Vec::new();
    add_cargo_target(&known, &mut targets, &FilePath::unix("/t/root"), "one");
    add_cargo_target(&known, &mut targets, &FilePath::unix("/t/root"), "two");
    assert_eq!(targets.len(), 1);
    assert_eq!(targets[0].id, "cargo-root:/t/root");
    assert_eq!(targets[0].label, "one /t/root");
    assert!(targets[0].exists);
}

#[test]
fn markers_are_looked_for_upward() {
    let known = host(vec![file("/t/Cargo.toml", b"")]);
    assert_eq!(
        nearest_marker_root(&known, &FilePath::unix("/t/a/b"), "Cargo.toml"),
        Some(FilePath::unix("/t"))
    );
    assert_eq!(nearest_marker_root(&known, &FilePath::unix("/u"), "Cargo.toml"), None);
}

#[test]
fn paths_of_variables_are_read_in_the_directory() {
    let mut known = host(Vec::new());
    known.env.push(EnvPath { name: "VIRTUAL_ENV".into(), path: FilePath::unix("env") });
    assert_eq!(
        environment_path(&known, "VIRTUAL_ENV", &FilePath::unix("/t")),
        Some(FilePath::unix("/t/env"))
    );
    assert_eq!(environment_path(&known, "CONDA_PREFIX", &FilePath::unix("/t")), None);
}

#[test]
fn a_project_can_be_given_a_new_environment() {
    let known = host(vec![
        directory("/"),
        directory("/project"),
        file("/project/pyproject.toml", b""),
    ]);
    let context = ProjectContext::discover(&known, FilePath::unix("/project"));
    assert_eq!(context.project_root, Some(FilePath::unix("/project")));
    assert_eq!(context.markers, vec!["pyproject.toml".to_owned()]);
    let ids: Vec<&str> = context.targets.iter().map(|target| target.id.as_str()).collect();
    assert!(ids.contains(&"system"));
    assert!(ids.contains(&"user"));
    let venv = context.targets.iter().find(|target| target.id == "venv:/project/.venv").unwrap();
    assert!(!venv.exists);
}

#[test]
fn json_objects_are_searched_by_key() {
    let bytes = b"{\"name\": \"first\", \"list\": [1], \"name\": \"second\"}".to_vec();
    assert_eq!(json_member(&bytes, "name"), Some(JsonMember::Text("second".into())));
    assert_eq!(json_member(&bytes, "list"), Some(JsonMember::Array));
    assert_eq!(json_member(&bytes, "nam"), None);
    assert_eq!(json_member(&b"[]".to_vec(), "name"), None);
    assert_eq!(json_member(&b"{".to_vec(), "name"), None);
    let members = vec![
        JsonEntry { key: "a".into(), member: JsonMember::Other },
        JsonEntry { key: "b".into(), member: JsonMember::Object },
    ];
    assert_eq!(find_member(members, "b"), Some(JsonMember::Object));
    assert_eq!(find_member(Vec::new(), "b"), None);
}

#[test]
fn json_arrays_give_one_record_for_each_entry() {
    let keys = vec!["name".to_owned(), "version".to_owned()];
    let text = "[{\"version\": 3, \"name\": \"left\"}, 7, {\"version\": \"1.0\"}]";
    let records = json_records(text, &keys).unwrap().unwrap();
    let values: Vec<Vec<Option<String>>> =
        records.into_iter().map(|record| record.values).collect();
    assert_eq!(
        values,
        [vec![Some("left".to_owned()), None], vec![None, None], vec![None, Some("1.0".to_owned())]]
    );
    assert!(json_records("{}", &keys).unwrap().is_none());
    assert!(json_records("[", &keys).unwrap_err().contains("EOF"));
    let object = JsonObject {
        members: vec![
            JsonText { key: "version".into(), text: Some("2".into()) },
            JsonText { key: "name".into(), text: None },
        ],
    };
    assert_eq!(json_record(&object, &keys).values, [None, Some("2".to_owned())]);
}
