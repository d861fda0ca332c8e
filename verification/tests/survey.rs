use mate::context::ProjectContext;
use mate::host::{EnvPath, Host, PathFacts};
use mate::path::{FilePath, Platform};
use mate::survey::{
    command_paths, creation_paths, environment_paths, path_variable_names, project_paths,
    survey_paths, system_paths,
};

fn has(paths: &[FilePath], path: &str) -> bool {
    paths.iter().any(|known| known.text() == path)
}

#[test]
fn environments_are_told_by_their_interpreter_and_marks() {
    let paths = environment_paths(Platform::Unix, &FilePath::unix("/project/.venv"));
    assert_eq!(paths.len(), 5);
    assert_eq!(paths[0].text(), "/project/.venv");
    assert!(has(&paths, "/project/.venv/bin/python"));
    assert!(has(&paths, "/project/.venv/pyvenv.cfg"));
    assert!(has(&paths, "/project/.venv/conda-meta"));
}

#[test]
fn projects_are_told_by_their_markers() {
    let paths = project_paths(Platform::Unix, &FilePath::unix("/project"));
    for path in [
        "/project",
        "/project/Cargo.toml",
        "/project/package.json",
        "/project/pyproject.toml",
        "/project/.git",
        "/project/node_modules",
        "/project/.mate/cargo",
        "/project/.venv/pyvenv.cfg",
        "/project/venv",
        "/project/env",
    ] {
        assert!(has(&paths, path), "{path}");
    }
}

#[test]
fn commands_are_looked_for_in_directories() {
    let paths = command_paths(Platform::Unix, &FilePath::unix("/usr/bin"));
    assert!(has(&paths, "/usr/bin/cargo"));
    assert!(has(&paths, "/usr/bin/uv"));
    assert!(!has(&paths, "/usr/bin/sudo"));
}

#[test]
fn the_system_has_its_places() {
    let paths = system_paths(Platform::Unix);
    assert!(has(&paths, "/usr/bin/sudo"));
    assert!(has(&paths, "/usr/bin/apt-get"));
    assert!(has(&paths, "/tmp"));
    assert!(path_variable_names().contains(&"VIRTUAL_ENV".to_owned()));
}

fn facts(path: &str, is_dir: bool) -> PathFacts {
    PathFacts {
        path: FilePath::unix(path),
        is_entry: true,
        exists: true,
        is_file: !is_dir,
        is_dir,
        mode: 0o755,
        owned_by_root: true,
        canonical: Ok(FilePath::unix(path)),
        content: None,
    }
}

fn host(paths: Vec<PathFacts>) -> Host {
    Host {
        platform: Platform::Unix,
        current_dir: Some(FilePath::unix("/work/app")),
        temp_dir: FilePath::unix("/tmp"),
        search_path: vec![FilePath::unix("/usr/bin")],
        env: vec![
            EnvPath { name: "HOME".into(), path: FilePath::unix("home") },
            EnvPath { name: "VIRTUAL_ENV".into(), path: FilePath::unix("/venvs/one") },
        ],
        paths,
    }
}

fn project() -> Vec<PathFacts> {
    vec![
        facts("/work", true),
        facts("/work/app", true),
        facts("/work/app/Cargo.toml", false),
        facts("/usr/bin", true),
        facts("/usr/bin/cargo", false),
        facts("/venvs/one", true),
        facts("/venvs/one/bin/python", false),
        facts("/venvs/one/pyvenv.cfg", false),
    ]
}

#[test]
fn the_survey_follows_what_was_found() {
    let cwd = FilePath::unix("/work/app");
    let paths = survey_paths(&host(project()), &cwd);
    for path in [
        "/work/app/Cargo.toml",
        "/work/.git",
        "/",
        "home",
        "/work/app/home",
        "/work/app/.mate/cargo",
        "/venvs/one/conda-meta",
        "/usr/bin/cargo",
        "/usr/bin/sudo",
        "/tmp",
    ] {
        assert!(has(&paths, path), "{path}");
    }
    assert!(!has(&survey_paths(&host(Vec::new()), &cwd), "/usr/bin/cargo"));
    let links = creation_paths(&host(project()), &FilePath::unix("/work/app/new/root"));
    assert_eq!(links.len(), 10);
    assert_eq!(links[0].text(), "/work/app/new/root");
}

#[test]
fn the_context_rests_on_the_survey() {
    let cwd = FilePath::unix("/work/app");
    let one = host(project());
    let mut paths = project();
    paths.push(facts("/elsewhere/Cargo.toml", false));
    paths.push(facts("/work/app/src", true));
    let other = host(paths);
    let listed = survey_paths(&one, &cwd);
    assert!(!has(&listed, "/elsewhere/Cargo.toml"));
    assert!(!has(&listed, "/work/app/src"));
    let a = ProjectContext::discover(&one, cwd.clone());
    let b = ProjectContext::discover(&other, cwd);
    let ids = |context: &ProjectContext| -> Vec<String> {
        context.targets.iter().map(|target| target.id.clone()).collect()
    };
    assert_eq!(ids(&a), ids(&b));
    assert!(ids(&a).contains(&"venv:/venvs/one".to_owned()));
    assert_eq!(a.markers, b.markers);
}
