use mate::error::ErrorKind;
use mate::host::{EnvPath, Host, PathFacts};
use mate::path::{FilePath, Platform};
use mate::platform::{
    canonicalize, canonicalize_or, env_key_has_any_prefix, env_key_has_prefix, home_dir, null_device,
    path_entry_exists, resolve_for_creation, temporary_roots,
};

fn directory(path: &str, canonical: &str) -> PathFacts {
    PathFacts {
        path: FilePath::unix(path),
        is_entry: true,
        exists: true,
        is_file: false,
        is_dir: true,
        mode: 0o755,
        owned_by_root: false,
        canonical: Ok(FilePath::unix(canonical)),
        content: None,
    }
}

fn host(paths: Vec<PathFacts>) -> Host {
    Host {
        platform: Platform::Unix,
        current_dir: None,
        temp_dir: FilePath::unix("/tmp"),
        search_path: Vec::new(),
        env: Vec::new(),
        paths,
    }
}

#[test]
fn null_device_matches_the_platform() {
    assert_eq!(null_device(Platform::Windows), "NUL");
    assert_eq!(null_device(Platform::Unix), "/dev/null");
}

#[test]
fn environment_prefix_matching_matches_platform_rules() {
    assert!(env_key_has_prefix(Platform::Unix, "PIP_INDEX_URL", "PIP_"));
    assert!(env_key_has_prefix(Platform::Windows, "PIP_INDEX_URL", "PIP_"));
    assert!(env_key_has_prefix(Platform::Windows, "pip_index_url", "PIP_"));
    assert!(!env_key_has_prefix(Platform::Unix, "pip_index_url", "PIP_"));
}

#[test]
fn a_prefix_may_be_longer_than_the_key() {
    assert!(!env_key_has_prefix(Platform::Unix, "PI", "PIP_"));
    assert!(!env_key_has_prefix(Platform::Windows, "PI", "PIP_"));
    assert!(!env_key_has_prefix(Platform::Windows, "é_", "PIP"));
    let prefixes = vec!["UV_".to_owned(), "PIP_".to_owned()];
    assert!(env_key_has_any_prefix(Platform::Unix, "PIP_USER", &prefixes));
    assert!(!env_key_has_any_prefix(Platform::Unix, "PATH", &prefixes));
}

#[test]
fn resolves_missing_suffix_from_an_existing_ancestor() {
    let known = host(vec![directory("/", "/"), directory("/link", "/real/temp")]);
    let resolved =
        resolve_for_creation(&known, &FilePath::unix("/link").child("new").child("nested")).unwrap();
    assert_eq!(
        resolved,
        canonicalize(&known, &FilePath::unix("/link")).unwrap().child("new").child("nested")
    );
    assert!(resolve_for_creation(&known, &FilePath::unix("relative/path")).is_err());
}

#[test]
fn paths_that_cannot_be_resolved_are_refused() {
    let known = host(vec![directory("/", "/")]);
    let relative = resolve_for_creation(&known, &FilePath::unix("relative/path")).unwrap_err();
    assert_eq!(relative.kind, ErrorKind::PathNotAbsolute);
    assert_eq!(relative.text(), "path to create must be absolute");
    let upward = resolve_for_creation(&known, &FilePath::unix("/missing/..")).unwrap_err();
    assert_eq!(upward.kind, ErrorKind::PathUnresolvable);
    assert_eq!(upward.text(), "path has no resolvable existing ancestor");
    let broken = host(vec![
        directory("/", "/"),
        PathFacts {
            exists: false,
            is_dir: false,
            canonical: Err("No such file or directory (os error 2)".into()),
            ..directory("/broken", "/")
        },
    ]);
    assert!(path_entry_exists(&broken, &FilePath::unix("/broken")));
    let dangling = resolve_for_creation(&broken, &FilePath::unix("/broken")).unwrap_err();
    assert_eq!(dangling.kind, ErrorKind::PathUnresolvable);
    assert_eq!(dangling.text(), "No such file or directory (os error 2)");
    assert_eq!(canonicalize_or(&broken, &FilePath::unix("/broken")), FilePath::unix("/broken"));
}

#[test]
fn the_home_directory_is_canonical() {
    let mut known = host(vec![directory("/home/me", "/users/me")]);
    assert_eq!(home_dir(&known), None);
    known.env.push(EnvPath { name: "HOME".into(), path: FilePath::unix("/home/me") });
    assert_eq!(home_dir(&known), Some(FilePath::unix("/users/me")));
}

#[test]
fn temporary_roots_are_listed_once() {
    let known = host(vec![
        directory("/tmp", "/private/tmp"),
        directory("/var/tmp", "/private/tmp"),
        directory("/dev/shm", "/dev/shm"),
    ]);
    assert_eq!(
        temporary_roots(&known),
        vec![FilePath::unix("/private/tmp"), FilePath::unix("/dev/shm")]
    );
}
