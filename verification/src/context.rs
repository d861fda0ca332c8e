//! Project markers and target discovery.

use vstd::prelude::*;

use crate::host::{Host, HostView, variable};
use crate::json::{json_member, JsonMember, member_of, MemberView};
use crate::model::{Target, TargetKind, TargetView};
use crate::path::{
    FilePath, has_path, list_has_path, path_ancestor, path_child, path_in, path_same, path_text,
    Platform, PathView, split_at_char, split_text_at_char,
};
use crate::platform::{
    canonical_or, canonicalize, canonicalize_or, creation_path, home, home_dir,
    path_entry_exists, resolve_for_creation,
};
use crate::text::{cat2, cat3, concat, concat_texts, lemma_views_push, option_view, same, views};

verus! {

/// The project that mate was started in, and what can be installed into there.
#[derive(Debug)]
pub struct ProjectContext {
    pub cwd: FilePath,
    pub project_root: Option<FilePath>,
    pub workspace_root: Option<FilePath>,
    pub targets: Vec<Target>,
    pub markers: Vec<String>,
}

#[verifier::ext_equal]
pub struct ContextView {
    pub cwd: PathView,
    pub project_root: Option<PathView>,
    pub workspace_root: Option<PathView>,
    pub targets: Seq<TargetView>,
    pub markers: Seq<Seq<char>>,
}

impl View for ProjectContext {
    type V = ContextView;

    open spec fn view(&self) -> ContextView {
        ContextView {
            cwd: self.cwd@,
            project_root: option_view(self.project_root),
            workspace_root: option_view(self.workspace_root),
            targets: views(self.targets@),
            markers: views(self.markers@),
        }
    }
}

// ---------------------------------------------------------------------------
// Roots
// ---------------------------------------------------------------------------

/// The files that a project has at its root.
pub open spec fn manifest_names() -> Seq<Seq<char>> {
    seq![
        "pyproject.toml"@,
        "uv.lock"@,
        "requirements.txt"@,
        "Pipfile"@,
        "package.json"@,
        "Cargo.toml"@,
    ]
}

/// The entries that a working copy has at its root.
pub open spec fn vcs_names() -> Seq<Seq<char>> {
    seq![".git"@, ".hg"@, ".svn"@]
}

/// Those of `names` that are found in `directory`.
pub open spec fn markers_in(host: HostView, directory: PathView, names: Seq<Seq<char>>) -> Seq<
    Seq<char>,
>
    decreases names.len(),
{
    if names.len() == 0 {
        Seq::empty()
    } else {
        let rest = markers_in(host, directory, names.drop_last());
        if host.is_present(path_child(directory, names.last())) {
            rest.push(names.last())
        } else {
            rest
        }
    }
}

/// Whether the search upwards ends before `directory`: nothing at or above the
/// home directory belongs to a project.
pub open spec fn is_home(host: HostView, directory: PathView) -> bool {
    home(host) matches Some(home) && path_same(home, directory)
}

/// The nearest directory, `from` levels above `cwd` or higher but below the home
/// directory, in which some of `names` is found, and which of them.
pub open spec fn nearest_marked(
    host: HostView,
    cwd: PathView,
    names: Seq<Seq<char>>,
    from: int,
) -> Option<(PathView, Seq<Seq<char>>)>
    decreases cwd.parts.len() + 1 - from,
{
    if from < 0 || from > cwd.parts.len() || is_home(host, path_ancestor(cwd, from)) {
        None
    } else {
        let markers = markers_in(host, path_ancestor(cwd, from), names);
        if markers.len() > 0 {
            Some((path_ancestor(cwd, from), markers))
        } else {
            nearest_marked(host, cwd, names, from + 1)
        }
    }
}

/// Where a project and its workspace begin, and what marks the project.
pub struct RootsView {
    pub project: Option<PathView>,
    pub workspace: Option<PathView>,
    pub markers: Seq<Seq<char>>,
}

/// The project is where the nearest manifest is, or else the working copy; the
/// workspace is the working copy, or else the project.
pub open spec fn project_roots(host: HostView, cwd: PathView) -> RootsView {
    let manifest = nearest_marked(host, cwd, manifest_names(), 0);
    let vcs = nearest_marked(host, cwd, vcs_names(), 0);
    let project = if manifest is Some {
        manifest
    } else {
        vcs
    };
    let root = match project {
        Some((path, _)) => Some(path),
        None => None,
    };
    RootsView {
        project: root,
        workspace: match vcs {
            Some((path, _)) => Some(path),
            None => root,
        },
        markers: match project {
            Some((_, markers)) => markers,
            None => Seq::empty(),
        },
    }
}

/// Where a project and its workspace begin, and what marks the project.
#[derive(Debug)]
pub struct ProjectRoots {
    pub project: Option<FilePath>,
    pub workspace: Option<FilePath>,
    pub markers: Vec<String>,
}

impl View for ProjectRoots {
    type V = RootsView;

    open spec fn view(&self) -> RootsView {
        RootsView {
            project: option_view(self.project),
            workspace: option_view(self.workspace),
            markers: views(self.markers@),
        }
    }
}

fn manifest_list() -> (r: Vec<String>)
    ensures
        views(r@) == manifest_names(),
{
    let mut r: Vec<String> = Vec::new();
    r.push("pyproject.toml".to_owned());
    r.push("uv.lock".to_owned());
    r.push("requirements.txt".to_owned());
    r.push("Pipfile".to_owned());
    r.push("package.json".to_owned());
    r.push("Cargo.toml".to_owned());
    assert(views(r@) =~= manifest_names());
    r
}

fn vcs_list() -> (r: Vec<String>)
    ensures
        views(r@) == vcs_names(),
{
    let mut r: Vec<String> = Vec::new();
    r.push(".git".to_owned());
    r.push(".hg".to_owned());
    r.push(".svn".to_owned());
    assert(views(r@) =~= vcs_names());
    r
}

fn find_markers(host: &Host, directory: &FilePath, names: &Vec<String>) -> (r: Vec<String>)
    ensures
        views(r@) == markers_in(host@, directory@, views(names@)),
{
    let ghost all = views(names@);
    let mut r: Vec<String> = Vec::new();
    let n: usize = names.len();
    assert(views(r@) =~= markers_in(host@, directory@, all.take(0)));
    for i in 0..n
        invariant
            n == names@.len(),
            all == views(names@),
            views(r@) == markers_in(host@, directory@, all.take(i as int)),
    {
        proof {
            assert(all.take(i + 1).drop_last() =~= all.take(i as int));
            assert(all.take(i + 1).last() == names@[i as int]@);
        }
        if host.is_present(&directory.child(names[i].as_str())) {
            let ghost before = r@;
            let name = names[i].clone();
            r.push(name);
            proof {
                lemma_views_push(before, name);
            }
        }
    }
    assert(all.take(n as int) =~= all);
    r
}

fn reaches_home(host: &Host, directory: &FilePath) -> (r: bool)
    ensures
        r == is_home(host@, directory@),
{
    match home_dir(host) {
        Some(home) => home.same(directory),
        None => false,
    }
}

fn find_nearest_marked(host: &Host, cwd: &FilePath, names: &Vec<String>) -> (r: Option<
    (FilePath, Vec<String>),
>)
    ensures
        match r {
            Some((path, markers)) => nearest_marked(host@, cwd@, views(names@), 0) == Some(
                (path@, views(markers@)),
            ),
            None => nearest_marked(host@, cwd@, views(names@), 0) is None,
        },
{
    let n: usize = cwd.parts.len();
    let mut k: usize = 0;
    while k <= n
        invariant
            n == cwd.parts@.len(),
            k <= n,
            nearest_marked(host@, cwd@, views(names@), 0) == nearest_marked(
                host@,
                cwd@,
                views(names@),
                k as int,
            ),
        decreases n + 1 - k,
    {
        assert(cwd@.parts.len() == n);
        let directory = cwd.ancestor(k);
        if reaches_home(host, &directory) {
            return None;
        }
        let markers = find_markers(host, &directory, names);
        assert(markers@.len() == views(markers@).len());
        if markers.len() > 0 {
            return Some((directory, markers));
        }
        if k == n {
            assert(nearest_marked(host@, cwd@, views(names@), k + 1) is None);
            return None;
        }
        k = k + 1;
    }
    None
}

pub fn locate_project(host: &Host, cwd: &FilePath) -> (r: ProjectRoots)
    ensures
        r@ == project_roots(host@, cwd@),
{
    let manifest = find_nearest_marked(host, cwd, &manifest_list());
    let vcs = find_nearest_marked(host, cwd, &vcs_list());
    let vcs_root = match &vcs {
        Some((path, _)) => Some(path.clone()),
        None => None,
    };
    let project = match manifest {
        Some(found) => Some(found),
        None => vcs,
    };
    match project {
        Some((path, markers)) => {
            let workspace = match vcs_root {
                Some(root) => Some(root),
                None => Some(path.clone()),
            };
            ProjectRoots { project: Some(path), workspace, markers }
        },
        None => {
            let markers: Vec<String> = Vec::new();
            assert(views(markers@) =~= Seq::<Seq<char>>::empty());
            ProjectRoots { project: None, workspace: vcs_root, markers }
        },
    }
}

/// The project lies at or above the current directory, below the home directory,
/// and holds every one of its markers.
pub proof fn law_project_is_marked(host: HostView, cwd: PathView)
    ensures
        project_roots(host, cwd).project matches Some(root) ==> {
            &&& exists|k: int|
                0 <= k <= cwd.parts.len() && root == #[trigger] path_ancestor(cwd, k)
            &&& !is_home(host, root)
            &&& project_roots(host, cwd).markers.len() > 0
            &&& forall|i: int|
                0 <= i < project_roots(host, cwd).markers.len() ==> host.is_present(
                    path_child(root, #[trigger] project_roots(host, cwd).markers[i]),
                )
        },
        project_roots(host, cwd).project is None ==> project_roots(host, cwd).workspace is None,
{
    lemma_nearest_marked(host, cwd, manifest_names(), 0);
    lemma_nearest_marked(host, cwd, vcs_names(), 0);
}

proof fn lemma_nearest_marked(host: HostView, cwd: PathView, names: Seq<Seq<char>>, from: int)
    requires
        0 <= from,
    ensures
        nearest_marked(host, cwd, names, from) matches Some((root, markers)) ==> {
            &&& exists|k: int|
                0 <= k <= cwd.parts.len() && root == #[trigger] path_ancestor(cwd, k)
            &&& !is_home(host, root)
            &&& markers.len() > 0
            &&& forall|i: int|
                0 <= i < markers.len() ==> host.is_present(path_child(root, #[trigger] markers[i]))
        },
    decreases cwd.parts.len() + 1 - from,
{
    if from <= cwd.parts.len() && !is_home(host, path_ancestor(cwd, from)) {
        let directory = path_ancestor(cwd, from);
        lemma_markers_in(host, directory, names);
        if markers_in(host, directory, names).len() == 0 {
            lemma_nearest_marked(host, cwd, names, from + 1);
        }
    }
}

proof fn lemma_markers_in(host: HostView, directory: PathView, names: Seq<Seq<char>>)
    ensures
        forall|i: int|
            0 <= i < markers_in(host, directory, names).len() ==> host.is_present(
                path_child(directory, #[trigger] markers_in(host, directory, names)[i]),
            ),
    decreases names.len(),
{
    if names.len() > 0 {
        lemma_markers_in(host, directory, names.drop_last());
        let before = markers_in(host, directory, names.drop_last());
        let after = markers_in(host, directory, names);
        assert forall|i: int| 0 <= i < after.len() implies host.is_present(
            path_child(directory, #[trigger] after[i]),
        ) by {
            if i < before.len() {
                assert(after[i] == before[i]);
            }
        }
    }
}

// ---------------------------------------------------------------------------
// Python
// ---------------------------------------------------------------------------

/// The interpreter that a new environment will have.
pub open spec fn venv_interpreter(platform: Platform, path: PathView) -> PathView {
    match platform {
        Platform::Windows => path_child(path_child(path, "Scripts"@), "python.exe"@),
        Platform::Unix => path_child(path_child(path, "bin"@), "python"@),
    }
}

pub fn venv_python(platform: Platform, path: &FilePath) -> (r: FilePath)
    ensures
        r@ == venv_interpreter(platform, path@),
{
    match platform {
        Platform::Windows => path.child("Scripts").child("python.exe"),
        Platform::Unix => path.child("bin").child("python"),
    }
}

/// The other place where an environment may have its interpreter.
pub open spec fn other_interpreter(platform: Platform, path: PathView) -> PathView {
    match platform {
        Platform::Windows => path_child(path, "python.exe"@),
        Platform::Unix => path_child(path_child(path, "bin"@), "python3"@),
    }
}

/// The interpreter that an environment has.
pub open spec fn interpreter(host: HostView, path: PathView) -> Option<PathView> {
    if host.is_file(venv_interpreter(host.platform, path)) {
        Some(venv_interpreter(host.platform, path))
    } else if host.is_file(other_interpreter(host.platform, path)) {
        Some(other_interpreter(host.platform, path))
    } else {
        None
    }
}

/// The places where an environment may have its interpreter.
pub fn python_candidates(platform: Platform, path: &FilePath) -> (r: Vec<FilePath>)
    ensures
        views(r@) == seq![venv_interpreter(platform, path@), other_interpreter(platform, path@)],
{
    let mut r: Vec<FilePath> = Vec::new();
    r.push(venv_python(platform, path));
    match platform {
        Platform::Windows => {
            r.push(path.child("python.exe"));
        },
        Platform::Unix => {
            r.push(path.child("bin").child("python3"));
        },
    }
    assert(views(r@) =~= seq![
        venv_interpreter(platform, path@),
        other_interpreter(platform, path@),
    ]);
    r
}

pub fn python_environment_python(host: &Host, path: &FilePath) -> (r: Option<FilePath>)
    ensures
        option_view(r) == interpreter(host@, path@),
{
    let candidates = python_candidates(host.platform, path);
    proof {
        assert(candidates@.len() == views(candidates@).len());
        assert(views(candidates@)[0] == candidates@[0]@);
        assert(views(candidates@)[1] == candidates@[1]@);
    }
    if host.is_file(&candidates[0]) {
        return Some(candidates[0].clone());
    }
    if host.is_file(&candidates[1]) {
        return Some(candidates[1].clone());
    }
    None
}

#[derive(Debug, Clone, Copy, PartialEq, Eq, Structural)]
pub enum PythonEnvironment {
    Venv,
    Conda,
}

/// What kind of environment is found at a path: one with an interpreter and the
/// marks of its kind.
pub open spec fn environment_at(host: HostView, path: PathView) -> Option<PythonEnvironment> {
    if interpreter(host, path) is Some && host.is_file(path_child(path, "pyvenv.cfg"@)) {
        Some(PythonEnvironment::Venv)
    } else if interpreter(host, path) is Some && host.is_dir(path_child(path, "conda-meta"@)) {
        Some(PythonEnvironment::Conda)
    } else {
        None
    }
}

pub fn detect_python_environment(host: &Host, path: &FilePath) -> (r: Option<PythonEnvironment>)
    ensures
        r == environment_at(host@, path@),
{
    let has_python = python_environment_python(host, path).is_some();
    if has_python && host.is_file(&path.child("pyvenv.cfg")) {
        Some(PythonEnvironment::Venv)
    } else if has_python && host.is_dir(&path.child("conda-meta")) {
        Some(PythonEnvironment::Conda)
    } else {
        None
    }
}

/// The targets so far, and the environments among them.
pub struct PythonTargets {
    pub targets: Seq<TargetView>,
    pub seen: Seq<PathView>,
}

pub open spec fn python_label(
    path: PathView,
    environment: PythonEnvironment,
    exists: bool,
) -> Seq<char> {
    if !exists {
        "create Python venv "@ + path_text(path)
    } else if environment == PythonEnvironment::Venv {
        "Python venv "@ + path_text(path)
    } else {
        "Conda environment "@ + path_text(path)
    }
}

/// `so_far` with the environment at `path`, unless that cannot be resolved or is
/// there already.
pub open spec fn with_python(
    host: HostView,
    so_far: PythonTargets,
    path: PathView,
    environment: PythonEnvironment,
    exists: bool,
) -> PythonTargets {
    let resolved = if exists {
        host.canonical(path)
    } else {
        match creation_path(host, path) {
            Ok(found) => Some(found),
            Err(_) => None,
        }
    };
    match resolved {
        None => so_far,
        Some(absolute) => if has_path(so_far.seen, absolute) {
            so_far
        } else {
            PythonTargets {
                targets: so_far.targets.push(
                    TargetView {
                        id: "venv:"@ + path_text(absolute),
                        kind: TargetKind::PythonVenv,
                        label: python_label(absolute, environment, exists),
                        path: Some(absolute),
                        exists,
                    },
                ),
                seen: so_far.seen.push(absolute),
            }
        },
    }
}

pub fn add_python_target(
    host: &Host,
    targets: &mut Vec<Target>,
    seen: &mut Vec<FilePath>,
    path: &FilePath,
    environment: PythonEnvironment,
    exists: bool,
)
    ensures
        (PythonTargets { targets: views(final(targets)@), seen: views(final(seen)@) })
            == with_python(
            host@,
            PythonTargets { targets: views(old(targets)@), seen: views(old(seen)@) },
            path@,
            environment,
            exists,
        ),
{
    let absolute = if exists {
        match canonicalize(host, path) {
            Some(absolute) => absolute,
            None => {
                return ;
            },
        }
    } else {
        match resolve_for_creation(host, path) {
            Ok(absolute) => absolute,
            Err(_) => {
                return ;
            },
        }
    };
    if list_has_path(seen, &absolute) {
        return ;
    }
    let text = absolute.text();
    let label = if !exists {
        cat2("create Python venv ", text.as_str())
    } else if environment == PythonEnvironment::Venv {
        cat2("Python venv ", text.as_str())
    } else {
        cat2("Conda environment ", text.as_str())
    };
    let target = Target {
        id: cat2("venv:", text.as_str()),
        kind: TargetKind::PythonVenv,
        label,
        path: Some(absolute.clone()),
        exists,
    };
    proof {
        lemma_views_push(seen@, absolute);
        lemma_views_push(targets@, target);
    }
    seen.push(absolute);
    targets.push(target);
}

/// `so_far` with the environment that a variable names, and whether that is one
/// still to be created.
pub open spec fn with_configured(
    host: HostView,
    so_far: PythonTargets,
    variable: Seq<char>,
    path: PathView,
) -> (PythonTargets, bool) {
    match environment_at(host, path) {
        Some(environment) => (with_python(host, so_far, path, environment, true), false),
        None => if variable == "UV_PROJECT_ENVIRONMENT"@ && !host.is_entry(path) {
            (with_python(host, so_far, path, PythonEnvironment::Venv, false), true)
        } else {
            (so_far, false)
        },
    }
}

pub fn add_configured_python_target(
    host: &Host,
    targets: &mut Vec<Target>,
    seen: &mut Vec<FilePath>,
    variable: &str,
    path: &FilePath,
) -> (r: bool)
    ensures
        (PythonTargets { targets: views(final(targets)@), seen: views(final(seen)@) }, r)
            == with_configured(
            host@,
            PythonTargets { targets: views(old(targets)@), seen: views(old(seen)@) },
            variable@,
            path@,
        ),
{
    if let Some(environment) = detect_python_environment(host, path) {
        add_python_target(host, targets, seen, path, environment, true);
        false
    } else if same(variable, "UV_PROJECT_ENVIRONMENT") && !path_entry_exists(host, path) {
        add_python_target(host, targets, seen, path, PythonEnvironment::Venv, false);
        true
    } else {
        false
    }
}

/// The path that a variable holds, read in the directory `cwd`.
pub open spec fn configured_path(host: HostView, name: Seq<char>, cwd: PathView) -> Option<
    PathView,
> {
    match variable(host.env, name) {
        Some(path) => Some(path_in(cwd, path)),
        None => None,
    }
}

pub fn environment_path(host: &Host, name: &str, cwd: &FilePath) -> (r: Option<FilePath>)
    ensures
        option_view(r) == configured_path(host@, name@, cwd@),
{
    match host.variable(name) {
        Some(path) => Some(cwd.resolve(&path)),
        None => None,
    }
}

// ---------------------------------------------------------------------------
// Cargo
// ---------------------------------------------------------------------------

/// Where Cargo installs to, and what says so: `CARGO_INSTALL_ROOT`, else
/// `CARGO_HOME`, else the home directory.
pub open spec fn cargo_install_root(
    host: HostView,
    cwd: PathView,
    install_root: Option<PathView>,
    cargo_home: Option<PathView>,
    home: Option<PathView>,
) -> Option<(PathView, Seq<char>)> {
    let chosen = if install_root is Some {
        Some((install_root->0, "CARGO_INSTALL_ROOT"@))
    } else if cargo_home is Some {
        Some((cargo_home->0, "CARGO_HOME"@))
    } else if home is Some {
        Some((path_child(home->0, ".cargo"@), "HOME"@))
    } else {
        None
    };
    match chosen {
        Some((path, source)) => match creation_path(host, path_in(cwd, path)) {
            Ok(resolved) => Some((resolved, source)),
            Err(_) => None,
        },
        None => None,
    }
}

pub fn select_cargo_install_root(
    host: &Host,
    cwd: &FilePath,
    install_root: Option<FilePath>,
    cargo_home: Option<FilePath>,
    home: Option<FilePath>,
) -> (r: Option<(FilePath, &'static str)>)
    ensures
        match r {
            Some((path, source)) => cargo_install_root(
                host@,
                cwd@,
                option_view(install_root),
                option_view(cargo_home),
                option_view(home),
            ) == Some((path@, source@)),
            None => cargo_install_root(
                host@,
                cwd@,
                option_view(install_root),
                option_view(cargo_home),
                option_view(home),
            ) is None,
        },
{
    let (path, source) = if let Some(path) = install_root {
        (path, "CARGO_INSTALL_ROOT")
    } else if let Some(path) = cargo_home {
        (path, "CARGO_HOME")
    } else if let Some(path) = home {
        (path.child(".cargo"), "HOME")
    } else {
        return None;
    };
    match resolve_for_creation(host, &cwd.resolve(&path)) {
        Ok(resolved) => Some((resolved, source)),
        Err(_) => None,
    }
}

/// Whether one of `targets` has this id.
pub open spec fn has_target(targets: Seq<TargetView>, id: Seq<char>) -> bool {
    exists|i: int| 0 <= i < targets.len() && (#[trigger] targets[i]).id == id
}

pub fn has_target_id(targets: &Vec<Target>, id: &str) -> (r: bool)
    ensures
        r == has_target(views(targets@), id@),
{
    let n: usize = targets.len();
    for i in 0..n
        invariant
            n == targets@.len(),
            forall|j: int| 0 <= j < i ==> (#[trigger] views(targets@)[j]).id != id@,
    {
        if same(targets[i].id.as_str(), id) {
            assert(views(targets@)[i as int].id == id@);
            return true;
        }
    }
    false
}

/// `targets` with the install root at `path`, unless that cannot be resolved or is
/// there already.
pub open spec fn with_cargo(
    host: HostView,
    targets: Seq<TargetView>,
    path: PathView,
    label: Seq<char>,
) -> Seq<TargetView> {
    match creation_path(host, path) {
        Err(_) => targets,
        Ok(resolved) => {
            let id = "cargo-root:"@ + path_text(resolved);
            if has_target(targets, id) {
                targets
            } else {
                targets.push(
                    TargetView {
                        id,
                        kind: TargetKind::CargoRoot,
                        label: label + " "@ + path_text(resolved),
                        path: Some(resolved),
                        exists: host.is_dir(resolved),
                    },
                )
            }
        },
    }
}

pub fn add_cargo_target(host: &Host, targets: &mut Vec<Target>, path: &FilePath, label: &str)
    ensures
        views(final(targets)@) == with_cargo(host@, views(old(targets)@), path@, label@),
{
    let resolved = match resolve_for_creation(host, path) {
        Ok(resolved) => resolved,
        Err(_) => {
            return ;
        },
    };
    let text = resolved.text();
    let id = cat2("cargo-root:", text.as_str());
    if has_target_id(targets, id.as_str()) {
        return ;
    }
    let is_dir = host.is_dir(&resolved);
    let target = Target {
        id,
        kind: TargetKind::CargoRoot,
        label: cat3(label, " ", text.as_str()),
        path: Some(resolved),
        exists: is_dir,
    };
    proof {
        lemma_views_push(targets@, target);
    }
    targets.push(target);
}

/// The nearest directory, `from` levels above `cwd` or higher but below the home
/// directory, that holds the file `marker`.
pub open spec fn nearest_root(host: HostView, cwd: PathView, marker: Seq<char>, from: int) -> Option<
    PathView,
>
    decreases cwd.parts.len() + 1 - from,
{
    if from < 0 || from > cwd.parts.len() || is_home(host, path_ancestor(cwd, from)) {
        None
    } else if host.is_file(path_child(path_ancestor(cwd, from), marker)) {
        Some(path_ancestor(cwd, from))
    } else {
        nearest_root(host, cwd, marker, from + 1)
    }
}

pub fn nearest_marker_root(host: &Host, cwd: &FilePath, marker: &str) -> (r: Option<FilePath>)
    ensures
        option_view(r) == nearest_root(host@, cwd@, marker@, 0),
{
    let n: usize = cwd.parts.len();
    let mut k: usize = 0;
    while k <= n
        invariant
            n == cwd.parts@.len(),
            k <= n,
            nearest_root(host@, cwd@, marker@, 0) == nearest_root(host@, cwd@, marker@, k as int),
        decreases n + 1 - k,
    {
        assert(cwd@.parts.len() == n);
        let directory = cwd.ancestor(k);
        if reaches_home(host, &directory) {
            return None;
        }
        if host.is_file(&directory.child(marker)) {
            return Some(directory);
        }
        if k == n {
            assert(nearest_root(host@, cwd@, marker@, k + 1) is None);
            return None;
        }
        k = k + 1;
    }
    None
}

/// `targets` with the install root of the user for Cargo.
pub open spec fn with_user_root(host: HostView, targets: Seq<TargetView>, cwd: PathView) -> Seq<
    TargetView,
> {
    match cargo_install_root(
        host,
        cwd,
        configured_path(host, "CARGO_INSTALL_ROOT"@, cwd),
        configured_path(host, "CARGO_HOME"@, cwd),
        home(host),
    ) {
        Some((root, source)) => with_cargo(
            host,
            targets,
            root,
            "Cargo install root ("@ + source + ")"@,
        ),
        None => targets,
    }
}

/// `targets` with the install roots of Cargo: that of the user, and one of the
/// project.
pub open spec fn with_cargo_roots(host: HostView, targets: Seq<TargetView>, cwd: PathView) -> Seq<
    TargetView,
> {
    let first = with_user_root(host, targets, cwd);
    match nearest_root(host, cwd, "Cargo.toml"@, 0) {
        Some(project) => with_cargo(
            host,
            first,
            path_child(path_child(project, ".mate"@), "cargo"@),
            "project Cargo install root"@,
        ),
        None => first,
    }
}

pub fn add_cargo_targets(host: &Host, targets: &mut Vec<Target>, cwd: &FilePath)
    ensures
        views(final(targets)@) == with_cargo_roots(host@, views(old(targets)@), cwd@),
{
    let install_root = environment_path(host, "CARGO_INSTALL_ROOT", cwd);
    let cargo_home = environment_path(host, "CARGO_HOME", cwd);
    let home = home_dir(host);
    if let Some((root, source)) = select_cargo_install_root(
        host,
        cwd,
        install_root,
        cargo_home,
        home,
    ) {
        let label = cat3("Cargo install root (", source, ")");
        add_cargo_target(host, targets, &root, label.as_str());
    }
    if let Some(project) = nearest_marker_root(host, cwd, "Cargo.toml") {
        let root = project.child(".mate").child("cargo");
        add_cargo_target(host, targets, &root, "project Cargo install root");
    }
}

// ---------------------------------------------------------------------------
// Node
// ---------------------------------------------------------------------------

/// How large a manifest is read, in bytes.
pub const MAX_MANIFEST_BYTES: usize = 1_048_576;

/// A member of the manifest in `directory`.
pub open spec fn manifest_member(host: HostView, directory: PathView, key: Seq<char>) -> Option<
    MemberView,
> {
    match host.content(path_child(directory, "package.json"@)) {
        Some(bytes) => if bytes.len() > MAX_MANIFEST_BYTES {
            None
        } else {
            member_of(bytes, key)
        },
        None => None,
    }
}

pub fn package_json(host: &Host, directory: &FilePath, key: &str) -> (r: Option<JsonMember>)
    ensures
        option_view(r) == manifest_member(host@, directory@, key@),
{
    match host.facts(&directory.child("package.json")) {
        Some(facts) => match &facts.content {
            Some(bytes) => if bytes.len() > MAX_MANIFEST_BYTES {
                None
            } else {
                json_member(bytes, key)
            },
            None => None,
        },
        None => None,
    }
}

/// Whether a directory is a workspace, given what its manifest says of
/// workspaces.
pub open spec fn is_workspace(host: HostView, directory: PathView, workspaces: Option<MemberView>) -> bool {
    host.is_file(path_child(directory, "pnpm-workspace.yaml"@)) || host.is_file(
        path_child(directory, "lerna.json"@),
    ) || workspaces == Some(MemberView::Array) || workspaces == Some(MemberView::Object)
}

/// Whether a directory is a workspace, given what its manifest says of
/// workspaces.
pub fn is_workspace_root(host: &Host, directory: &FilePath, workspaces: &Option<JsonMember>) -> (r:
    bool)
    ensures
        r == is_workspace(host@, directory@, option_view(*workspaces)),
{
    host.is_file(&directory.child("pnpm-workspace.yaml")) || host.is_file(
        &directory.child("lerna.json"),
    ) || match workspaces {
        Some(JsonMember::Array) | Some(JsonMember::Object) => true,
        _ => false,
    }
}

pub fn is_node_workspace(host: &Host, directory: &FilePath) -> (r: bool)
    ensures
        r == is_workspace(
            host@,
            directory@,
            manifest_member(host@, directory@, "workspaces"@),
        ),
{
    is_workspace_root(host, directory, &package_json(host, directory, "workspaces"))
}

/// What a project is managed by, given what its manifest says of that, or else by
/// its lock file.
pub open spec fn manager_hint(host: HostView, directory: PathView, manager: Option<MemberView>) -> Seq<
    char,
> {
    let named = match manager {
        Some(MemberView::Text(text)) => split_at_char(text, '@')[0],
        _ => Seq::empty(),
    };
    if named.len() > 0 {
        named
    } else if host.is_file(path_child(directory, "pnpm-lock.yaml"@)) {
        "pnpm"@
    } else if host.is_file(path_child(directory, "yarn.lock"@)) {
        "yarn"@
    } else if host.is_file(path_child(directory, "bun.lock"@)) || host.is_file(
        path_child(directory, "bun.lockb"@),
    ) {
        "bun"@
    } else {
        "npm"@
    }
}

/// What a project is managed by, given what its manifest says of that.
pub fn manager_hint_for(host: &Host, directory: &FilePath, manager: &Option<JsonMember>) -> (r:
    String)
    ensures
        r@ == manager_hint(host@, directory@, option_view(*manager)),
{
    if let Some(JsonMember::Text(text)) = manager {
        let pieces = split_text_at_char(text.as_str(), '@');
        assert(views(pieces@)[0] == pieces@[0]@);
        if !pieces[0].as_str().is_empty() {
            return pieces[0].clone();
        }
    }
    if host.is_file(&directory.child("pnpm-lock.yaml")) {
        "pnpm".to_owned()
    } else if host.is_file(&directory.child("yarn.lock")) {
        "yarn".to_owned()
    } else if host.is_file(&directory.child("bun.lock")) || host.is_file(
        &directory.child("bun.lockb"),
    ) {
        "bun".to_owned()
    } else {
        "npm".to_owned()
    }
}

pub fn node_manager_hint(host: &Host, directory: &FilePath) -> (r: String)
    ensures
        r@ == manager_hint(
            host@,
            directory@,
            manifest_member(host@, directory@, "packageManager"@),
        ),
{
    manager_hint_for(host, directory, &package_json(host, directory, "packageManager"))
}

/// The target that a Node project or workspace is.
pub open spec fn node_target(host: HostView, path: PathView, workspace: bool) -> TargetView {
    let canonical = canonical_or(host, path);
    let text = path_text(canonical);
    let hint = manager_hint(
        host,
        canonical,
        manifest_member(host, canonical, "packageManager"@),
    );
    let dependencies = if host.is_dir(path_child(canonical, "node_modules"@)) {
        "dependencies present"@
    } else {
        "dependencies not installed"@
    };
    TargetView {
        id: if workspace {
            "node-workspace:"@ + text
        } else {
            "node-project:"@ + text
        },
        kind: if workspace {
            TargetKind::NodeWorkspace
        } else {
            TargetKind::NodeProject
        },
        label: concat(
            seq![
                if workspace {
                    "Node workspace "@
                } else {
                    "Node project "@
                },
                text,
                " ("@,
                hint,
                "; "@,
                dependencies,
                ")"@,
            ],
        ),
        path: Some(canonical),
        exists: host.is_dir(canonical),
    }
}

pub fn add_node_target(host: &Host, targets: &mut Vec<Target>, path: &FilePath, workspace: bool)
    ensures
        views(final(targets)@) == views(old(targets)@).push(node_target(host@, path@, workspace)),
{
    let canonical = canonicalize_or(host, path);
    let text = canonical.text();
    let mut parts: Vec<String> = Vec::new();
    parts.push(
        if workspace {
            "Node workspace ".to_owned()
        } else {
            "Node project ".to_owned()
        },
    );
    parts.push(text.clone());
    parts.push(" (".to_owned());
    parts.push(node_manager_hint(host, &canonical));
    parts.push("; ".to_owned());
    parts.push(
        if host.is_dir(&canonical.child("node_modules")) {
            "dependencies present".to_owned()
        } else {
            "dependencies not installed".to_owned()
        },
    );
    parts.push(")".to_owned());
    proof {
        assert(views(parts@) =~= seq![
            if workspace {
                "Node workspace "@
            } else {
                "Node project "@
            },
            text@,
            " ("@,
            manager_hint(
                host@,
                canonical@,
                manifest_member(host@, canonical@, "packageManager"@),
            ),
            "; "@,
            if host@.is_dir(path_child(canonical@, "node_modules"@)) {
                "dependencies present"@
            } else {
                "dependencies not installed"@
            },
            ")"@,
        ]);
    }
    let is_dir = host.is_dir(&canonical);
    let target = Target {
        id: if workspace {
            cat2("node-workspace:", text.as_str())
        } else {
            cat2("node-project:", text.as_str())
        },
        kind: if workspace {
            TargetKind::NodeWorkspace
        } else {
            TargetKind::NodeProject
        },
        label: concat_texts(&parts),
        path: Some(canonical),
        exists: is_dir,
    };
    proof {
        lemma_views_push(targets@, target);
    }
    targets.push(target);
}

/// The nearest workspace, `from` levels above `cwd` or higher but below the home
/// directory: a directory with a manifest that is a workspace.
pub open spec fn nearest_workspace(host: HostView, cwd: PathView, from: int) -> Option<PathView>
    decreases cwd.parts.len() + 1 - from,
{
    if from < 0 || from > cwd.parts.len() || is_home(host, path_ancestor(cwd, from)) {
        None
    } else {
        let directory = path_ancestor(cwd, from);
        if host.is_file(path_child(directory, "package.json"@)) && is_workspace(
            host,
            directory,
            manifest_member(host, directory, "workspaces"@),
        ) {
            Some(directory)
        } else {
            nearest_workspace(host, cwd, from + 1)
        }
    }
}

fn find_nearest_workspace(host: &Host, cwd: &FilePath) -> (r: Option<FilePath>)
    ensures
        option_view(r) == nearest_workspace(host@, cwd@, 0),
{
    let n: usize = cwd.parts.len();
    let mut k: usize = 0;
    while k <= n
        invariant
            n == cwd.parts@.len(),
            k <= n,
            nearest_workspace(host@, cwd@, 0) == nearest_workspace(host@, cwd@, k as int),
        decreases n + 1 - k,
    {
        assert(cwd@.parts.len() == n);
        let directory = cwd.ancestor(k);
        if reaches_home(host, &directory) {
            return None;
        }
        if host.is_file(&directory.child("package.json")) && is_node_workspace(host, &directory) {
            return Some(directory);
        }
        if k == n {
            assert(nearest_workspace(host@, cwd@, k + 1) is None);
            return None;
        }
        k = k + 1;
    }
    None
}

/// `targets` with the nearest Node project and the nearest workspace, which may be
/// the same.
pub open spec fn with_node_roots(host: HostView, targets: Seq<TargetView>, cwd: PathView) -> Seq<
    TargetView,
> {
    match nearest_root(host, cwd, "package.json"@, 0) {
        None => targets,
        Some(nearest) => match nearest_workspace(host, cwd, 0) {
            Some(workspace) => if path_same(workspace, nearest) {
                targets.push(node_target(host, workspace, true))
            } else {
                targets.push(node_target(host, nearest, false)).push(
                    node_target(host, workspace, true),
                )
            },
            None => targets.push(node_target(host, nearest, false)),
        },
    }
}

pub fn add_node_targets(host: &Host, targets: &mut Vec<Target>, cwd: &FilePath)
    ensures
        views(final(targets)@) == with_node_roots(host@, views(old(targets)@), cwd@),
{
    let nearest = match nearest_marker_root(host, cwd, "package.json") {
        Some(nearest) => nearest,
        None => {
            return ;
        },
    };
    match find_nearest_workspace(host, cwd) {
        Some(workspace) => {
            if workspace.same(&nearest) {
                add_node_target(host, targets, &workspace, true);
            } else {
                add_node_target(host, targets, &nearest, false);
                add_node_target(host, targets, &workspace, true);
            }
        },
        None => {
            add_node_target(host, targets, &nearest, false);
        },
    }
}

// ---------------------------------------------------------------------------
// Discovery
// ---------------------------------------------------------------------------

pub open spec fn system_target() -> TargetView {
    TargetView {
        id: "system"@,
        kind: TargetKind::System,
        label: "system packages"@,
        path: None,
        exists: true,
    }
}

pub open spec fn user_target() -> TargetView {
    TargetView {
        id: "user"@,
        kind: TargetKind::User,
        label: "current user"@,
        path: None,
        exists: true,
    }
}

/// The variables that may name a Python environment.
pub open spec fn python_variables() -> Seq<Seq<char>> {
    seq!["VIRTUAL_ENV"@, "CONDA_PREFIX"@, "UV_PROJECT_ENVIRONMENT"@]
}

/// The names that an environment inside a project usually has.
pub open spec fn python_directories() -> Seq<Seq<char>> {
    seq![".venv"@, "venv"@, "env"@]
}

/// `so_far` with the environments that variables name, and whether one of them is
/// still to be created.
pub open spec fn with_all_configured(
    host: HostView,
    so_far: PythonTargets,
    cwd: PathView,
    names: Seq<Seq<char>>,
) -> (PythonTargets, bool)
    decreases names.len(),
{
    if names.len() == 0 {
        (so_far, false)
    } else {
        let (before, new) = with_all_configured(host, so_far, cwd, names.drop_last());
        match configured_path(host, names.last(), cwd) {
            Some(path) => {
                let (after, created) = with_configured(host, before, names.last(), path);
                (after, new || created)
            },
            None => (before, new),
        }
    }
}

/// `so_far` with those of the usual environments that `base` has.
pub open spec fn with_usual(
    host: HostView,
    so_far: PythonTargets,
    base: PathView,
    names: Seq<Seq<char>>,
) -> PythonTargets
    decreases names.len(),
{
    if names.len() == 0 {
        so_far
    } else {
        let before = with_usual(host, so_far, base, names.drop_last());
        let path = path_child(base, names.last());
        match environment_at(host, path) {
            Some(environment) => with_python(host, before, path, environment, true),
            None => before,
        }
    }
}

/// `targets` with all Python environments: those that variables name, those that
/// the project has, and `.venv` as one to be created, unless another is or
/// something is there already.
pub open spec fn with_environments(
    host: HostView,
    targets: Seq<TargetView>,
    cwd: PathView,
    base: PathView,
) -> PythonTargets {
    let (configured, new) = with_all_configured(
        host,
        PythonTargets { targets, seen: Seq::empty() },
        cwd,
        python_variables(),
    );
    let usual = with_usual(host, configured, base, python_directories());
    let default_venv = path_child(base, ".venv"@);
    if !new && !host.is_entry(default_venv) {
        with_python(host, usual, default_venv, PythonEnvironment::Venv, false)
    } else {
        usual
    }
}

/// What is found out about the project around `cwd`.
pub open spec fn context_of(host: HostView, cwd: PathView) -> ContextView {
    let roots = project_roots(host, cwd);
    let base = match roots.project {
        Some(root) => root,
        None => cwd,
    };
    let cargo = with_cargo_roots(host, seq![system_target(), user_target()], cwd);
    let node = with_node_roots(host, cargo, cwd);
    ContextView {
        cwd,
        project_root: roots.project,
        workspace_root: roots.workspace,
        targets: with_environments(host, node, cwd, base).targets,
        markers: roots.markers,
    }
}

fn python_variable_list() -> (r: Vec<String>)
    ensures
        views(r@) == python_variables(),
{
    let mut r: Vec<String> = Vec::new();
    r.push("VIRTUAL_ENV".to_owned());
    r.push("CONDA_PREFIX".to_owned());
    r.push("UV_PROJECT_ENVIRONMENT".to_owned());
    assert(views(r@) =~= python_variables());
    r
}

fn python_directory_list() -> (r: Vec<String>)
    ensures
        views(r@) == python_directories(),
{
    let mut r: Vec<String> = Vec::new();
    r.push(".venv".to_owned());
    r.push("venv".to_owned());
    r.push("env".to_owned());
    assert(views(r@) =~= python_directories());
    r
}

fn add_python_targets(host: &Host, targets: &mut Vec<Target>, cwd: &FilePath, base: &FilePath)
    ensures
        views(final(targets)@) == with_environments(
            host@,
            views(old(targets)@),
            cwd@,
            base@,
        ).targets,
{
    let mut seen: Vec<FilePath> = Vec::new();
    let mut has_configured_new_venv = false;
    let ghost start = PythonTargets { targets: views(targets@), seen: Seq::empty() };
    assert(views(seen@) =~= Seq::<PathView>::empty());
    let variables = python_variable_list();
    let ghost names = views(variables@);
    let n: usize = variables.len();
    for i in 0..n
        invariant
            n == variables@.len(),
            names == views(variables@),
            (
                PythonTargets { targets: views(targets@), seen: views(seen@) },
                has_configured_new_venv,
            ) == with_all_configured(host@, start, cwd@, names.take(i as int)),
    {
        proof {
            assert(names.take(i + 1).drop_last() =~= names.take(i as int));
            assert(names.take(i + 1).last() == variables@[i as int]@);
        }
        if let Some(active) = environment_path(host, variables[i].as_str(), cwd) {
            let new = add_configured_python_target(
                host,
                targets,
                &mut seen,
                variables[i].as_str(),
                &active,
            );
            has_configured_new_venv = has_configured_new_venv || new;
        }
    }
    assert(names.take(n as int) =~= names);
    let ghost configured = PythonTargets { targets: views(targets@), seen: views(seen@) };
    let directories = python_directory_list();
    let ghost usual = views(directories@);
    let m: usize = directories.len();
    for i in 0..m
        invariant
            m == directories@.len(),
            usual == views(directories@),
            (PythonTargets { targets: views(targets@), seen: views(seen@) }) == with_usual(
                host@,
                configured,
                base@,
                usual.take(i as int),
            ),
    {
        proof {
            assert(usual.take(i + 1).drop_last() =~= usual.take(i as int));
            assert(usual.take(i + 1).last() == directories@[i as int]@);
        }
        let path = base.child(directories[i].as_str());
        if let Some(environment) = detect_python_environment(host, &path) {
            add_python_target(host, targets, &mut seen, &path, environment, true);
        }
    }
    assert(usual.take(m as int) =~= usual);
    let default_venv = base.child(".venv");
    if !has_configured_new_venv && !path_entry_exists(host, &default_venv) {
        add_python_target(
            host,
            targets,
            &mut seen,
            &default_venv,
            PythonEnvironment::Venv,
            false,
        );
    }
}

impl ProjectContext {
    /// Finds out about the project around `cwd`, which is in its canonical form.
    pub fn discover(host: &Host, cwd: FilePath) -> (r: ProjectContext)
        ensures
            r@ == context_of(host@, cwd@),
    {
        let roots = locate_project(host, &cwd);
        let base = match &roots.project {
            Some(root) => root.clone(),
            None => cwd.clone(),
        };
        let mut targets: Vec<Target> = Vec::new();
        targets.push(
            Target {
                id: "system".to_owned(),
                kind: TargetKind::System,
                label: "system packages".to_owned(),
                path: None,
                exists: true,
            },
        );
        targets.push(
            Target {
                id: "user".to_owned(),
                kind: TargetKind::User,
                label: "current user".to_owned(),
                path: None,
                exists: true,
            },
        );
        assert(views(targets@) =~= seq![system_target(), user_target()]);
        add_cargo_targets(host, &mut targets, &cwd);
        add_node_targets(host, &mut targets, &cwd);
        add_python_targets(host, &mut targets, &cwd, &base);
        ProjectContext {
            cwd,
            project_root: roots.project,
            workspace_root: roots.workspace,
            targets,
            markers: roots.markers,
        }
    }
}

// ---------------------------------------------------------------------------
// Laws
// ---------------------------------------------------------------------------

/// Whether no two of `paths` are the same.
pub open spec fn all_different(paths: Seq<PathView>) -> bool {
    forall|i: int, j: int|
        0 <= i < j < paths.len() ==> !path_same(#[trigger] paths[i], #[trigger] paths[j])
}

/// Whether `after` holds the targets of `before` and behind them one for each
/// environment that was added, no environment twice.
pub open spec fn environments_added(before: PythonTargets, after: PythonTargets) -> bool {
    &&& before.targets.len() <= after.targets.len()
    &&& after.targets.take(before.targets.len() as int) == before.targets
    &&& before.seen.len() <= after.seen.len()
    &&& after.seen.take(before.seen.len() as int) == before.seen
    &&& after.seen.len() - before.seen.len() == after.targets.len() - before.targets.len()
    &&& forall|i: int|
        before.targets.len() <= i < after.targets.len() ==> (#[trigger] after.targets[i]).kind
            == TargetKind::PythonVenv && after.targets[i].path == Some(
            after.seen[i - before.targets.len() + before.seen.len()],
        )
    &&& all_different(before.seen) ==> all_different(after.seen)
}

proof fn lemma_added_twice(a: PythonTargets, b: PythonTargets, c: PythonTargets)
    requires
        environments_added(a, b),
        environments_added(b, c),
    ensures
        environments_added(a, c),
{
    assert(c.targets.take(a.targets.len() as int) =~= b.targets.take(a.targets.len() as int));
    assert(c.seen.take(a.seen.len() as int) =~= b.seen.take(a.seen.len() as int));
    assert forall|i: int| a.targets.len() <= i < c.targets.len() implies (
    #[trigger] c.targets[i]).kind == TargetKind::PythonVenv && c.targets[i].path == Some(
        c.seen[i - a.targets.len() + a.seen.len()],
    ) by {
        if i < b.targets.len() {
            let k = i - a.targets.len() + a.seen.len();
            assert(c.targets.take(b.targets.len() as int)[i] == b.targets[i]);
            assert(c.seen.take(b.seen.len() as int)[k] == b.seen[k]);
        }
    }
}

proof fn lemma_with_python(
    host: HostView,
    so_far: PythonTargets,
    path: PathView,
    environment: PythonEnvironment,
    exists: bool,
)
    ensures
        environments_added(so_far, with_python(host, so_far, path, environment, exists)),
{
    let after = with_python(host, so_far, path, environment, exists);
    assert(after.targets.take(so_far.targets.len() as int) =~= so_far.targets);
    assert(after.seen.take(so_far.seen.len() as int) =~= so_far.seen);
}

proof fn lemma_with_all_configured(
    host: HostView,
    so_far: PythonTargets,
    cwd: PathView,
    names: Seq<Seq<char>>,
)
    ensures
        environments_added(so_far, with_all_configured(host, so_far, cwd, names).0),
    decreases names.len(),
{
    if names.len() == 0 {
        assert(so_far.targets.take(so_far.targets.len() as int) =~= so_far.targets);
        assert(so_far.seen.take(so_far.seen.len() as int) =~= so_far.seen);
    } else {
        lemma_with_all_configured(host, so_far, cwd, names.drop_last());
        let before = with_all_configured(host, so_far, cwd, names.drop_last()).0;
        match configured_path(host, names.last(), cwd) {
            Some(path) => match environment_at(host, path) {
                Some(environment) => {
                    lemma_with_python(host, before, path, environment, true);
                    lemma_added_twice(
                        so_far,
                        before,
                        with_python(host, before, path, environment, true),
                    );
                },
                None => {
                    let new = with_python(host, before, path, PythonEnvironment::Venv, false);
                    lemma_with_python(host, before, path, PythonEnvironment::Venv, false);
                    lemma_added_twice(so_far, before, new);
                },
            },
            None => {},
        }
    }
}

proof fn lemma_with_usual(
    host: HostView,
    so_far: PythonTargets,
    base: PathView,
    names: Seq<Seq<char>>,
)
    ensures
        environments_added(so_far, with_usual(host, so_far, base, names)),
    decreases names.len(),
{
    if names.len() == 0 {
        assert(so_far.targets.take(so_far.targets.len() as int) =~= so_far.targets);
        assert(so_far.seen.take(so_far.seen.len() as int) =~= so_far.seen);
    } else {
        lemma_with_usual(host, so_far, base, names.drop_last());
        let before = with_usual(host, so_far, base, names.drop_last());
        let path = path_child(base, names.last());
        match environment_at(host, path) {
            Some(environment) => {
                lemma_with_python(host, before, path, environment, true);
                lemma_added_twice(
                    so_far,
                    before,
                    with_python(host, before, path, environment, true),
                );
            },
            None => {},
        }
    }
}

/// Discovery offers the system and the user first, keeps the targets of Cargo and
/// Node that follow, and ends with Python environments, no two of which are the
/// same.
pub proof fn law_context_targets(host: HostView, cwd: PathView)
    ensures
        ({
            let targets = context_of(host, cwd).targets;
            let first = with_node_roots(
                host,
                with_cargo_roots(host, seq![system_target(), user_target()], cwd),
                cwd,
            );
            &&& targets.len() >= first.len() >= 2
            &&& targets.take(first.len() as int) == first
            &&& targets[0] == system_target()
            &&& targets[1] == user_target()
            &&& forall|i: int|
                first.len() <= i < targets.len() ==> (#[trigger] targets[i]).kind
                    == TargetKind::PythonVenv && targets[i].path is Some
            &&& forall|i: int, j: int|
                first.len() <= i < j < targets.len() ==> !path_same(
                    (#[trigger] targets[i]).path->0,
                    (#[trigger] targets[j]).path->0,
                )
        }),
{
    let roots = project_roots(host, cwd);
    let base = match roots.project {
        Some(root) => root,
        None => cwd,
    };
    let start = seq![system_target(), user_target()];
    let cargo = with_cargo_roots(host, start, cwd);
    let first = with_node_roots(host, cargo, cwd);
    assert(first.len() >= 2 && first[0] == start[0] && first[1] == start[1]);
    let none = PythonTargets { targets: first, seen: Seq::<PathView>::empty() };
    let configured = with_all_configured(host, none, cwd, python_variables()).0;
    let usual = with_usual(host, configured, base, python_directories());
    let default_venv = path_child(base, ".venv"@);
    let new = with_python(host, usual, default_venv, PythonEnvironment::Venv, false);
    lemma_with_all_configured(host, none, cwd, python_variables());
    lemma_with_usual(host, configured, base, python_directories());
    lemma_added_twice(none, configured, usual);
    lemma_with_python(host, usual, default_venv, PythonEnvironment::Venv, false);
    lemma_added_twice(none, usual, new);
    let all = with_environments(host, first, cwd, base);
    assert(environments_added(none, all));
    let targets = all.targets;
    assert(targets.take(first.len() as int)[0] == targets[0]);
    assert(targets.take(first.len() as int)[1] == targets[1]);
    assert forall|i: int, j: int| first.len() <= i < j < targets.len() implies !path_same(
        (#[trigger] targets[i]).path->0,
        (#[trigger] targets[j]).path->0,
    ) by {
        assert(targets[i].path == Some(all.seen[i - first.len()]));
        assert(targets[j].path == Some(all.seen[j - first.len()]));
    }
}

/// Whether a Python environment is found at `path`: an interpreter where one belongs, and
/// the settings of a virtual environment or the records of Conda.
pub open spec fn holds_environment(host: HostView, path: PathView) -> bool {
    &&& match host.platform {
        Platform::Unix => host.is_file(path_child(path_child(path, "bin"@), "python"@))
            || host.is_file(path_child(path_child(path, "bin"@), "python3"@)),
        Platform::Windows => host.is_file(
            path_child(path_child(path, "Scripts"@), "python.exe"@),
        ) || host.is_file(path_child(path, "python.exe"@)),
    }
    &&& host.is_file(path_child(path, "pyvenv.cfg"@)) || host.is_dir(
        path_child(path, "conda-meta"@),
    )
}

/// Where the project begins that `cwd` lies in, or `cwd` if it lies in none.
pub open spec fn project_base(host: HostView, cwd: PathView) -> PathView {
    match context_of(host, cwd).project_root {
        Some(root) => root,
        None => cwd,
    }
}

/// Whether `path` is what the variable `name` holds, read in `cwd`.
pub open spec fn is_named_by(host: HostView, cwd: PathView, name: Seq<char>, path: PathView) -> bool {
    variable(host.env, name) matches Some(value) && path == path_in(cwd, value)
}

/// Whether an environment may be at `path`: in the project under one of the usual names,
/// or where a variable says.
pub open spec fn may_be_environment(host: HostView, cwd: PathView, path: PathView) -> bool {
    ||| path == path_child(project_base(host, cwd), ".venv"@)
    ||| path == path_child(project_base(host, cwd), "venv"@)
    ||| path == path_child(project_base(host, cwd), "env"@)
    ||| is_named_by(host, cwd, "VIRTUAL_ENV"@, path)
    ||| is_named_by(host, cwd, "CONDA_PREFIX"@, path)
    ||| is_named_by(host, cwd, "UV_PROJECT_ENVIRONMENT"@, path)
}

/// Whether `UV_PROJECT_ENVIRONMENT` says that an environment is to be created at `place`.
pub open spec fn awaits_creation(host: HostView, cwd: PathView, place: PathView) -> bool {
    variable(host.env, "UV_PROJECT_ENVIRONMENT"@) matches Some(value) && {
        let path = path_in(cwd, value);
        &&& !holds_environment(host, path)
        &&& !host.is_entry(path)
        &&& creation_path(host, path) matches Ok(found) && found == place
    }
}

/// Whether `target` is the environment at `path`, or one that is to be created there.
pub open spec fn is_environment_at(host: HostView, target: TargetView, path: PathView) -> bool {
    &&& target.kind == TargetKind::PythonVenv
    &&& target.path matches Some(place) && {
        &&& target.id == "venv:"@ + path_text(place)
        &&& target.exists ==> {
            &&& holds_environment(host, path)
            &&& host.canonical(path) == Some(place)
            &&& target.label == if host.is_file(path_child(path, "pyvenv.cfg"@)) {
                "Python venv "@ + path_text(place)
            } else {
                "Conda environment "@ + path_text(place)
            }
        }
        &&& !target.exists ==> {
            &&& !host.is_entry(path)
            &&& creation_path(host, path) matches Ok(found) && found == place
            &&& target.label == "create Python venv "@ + path_text(place)
        }
    }
}

spec fn traced_at(
    host: HostView,
    cwd: PathView,
    target: TargetView,
    place: PathView,
    created: bool,
) -> bool {
    &&& target.path == Some(place)
    &&& exists|path: PathView| #[trigger]
        may_be_environment(host, cwd, path) && is_environment_at(host, target, path)
    &&& target.exists || created || awaits_creation(host, cwd, place)
}

spec fn traced(
    host: HostView,
    cwd: PathView,
    before: nat,
    so_far: PythonTargets,
    created: bool,
) -> bool {
    &&& so_far.targets.len() == before + so_far.seen.len()
    &&& forall|k: int|
        0 <= k < so_far.seen.len() ==> traced_at(
            host,
            cwd,
            so_far.targets[before + k],
            #[trigger] so_far.seen[k],
            created,
        )
}

proof fn lemma_traced(
    host: HostView,
    cwd: PathView,
    before: nat,
    so_far: PythonTargets,
    path: PathView,
    environment: PythonEnvironment,
    exists: bool,
    created: bool,
)
    requires
        traced(host, cwd, before, so_far, created),
        may_be_environment(host, cwd, path),
        exists ==> environment_at(host, path) == Some(environment),
        !exists ==> !host.is_entry(path) && (created || (creation_path(host, path) matches Ok(place)
            ==> awaits_creation(host, cwd, place))),
    ensures
        traced(host, cwd, before, with_python(host, so_far, path, environment, exists), created),
        exists ==> (host.canonical(path) matches Some(place) ==> has_path(
            with_python(host, so_far, path, environment, exists).seen,
            place,
        )),
        !exists ==> (creation_path(host, path) matches Ok(place) ==> has_path(
            with_python(host, so_far, path, environment, exists).seen,
            place,
        )),
        forall|place: PathView|
            has_path(so_far.seen, place) ==> #[trigger] has_path(
                with_python(host, so_far, path, environment, exists).seen,
                place,
            ),
{
    let after = with_python(host, so_far, path, environment, exists);
    assert forall|place: PathView| has_path(so_far.seen, place) implies #[trigger] has_path(
        after.seen,
        place,
    ) by {
        let k = choose|k: int|
            0 <= k < so_far.seen.len() && path_same(#[trigger] so_far.seen[k], place);
        assert(after.seen[k] == so_far.seen[k]);
    }
    if after.seen.len() > so_far.seen.len() {
        let n = so_far.seen.len() as int;
        let target = after.targets[before + n];
        assert(after.seen[n] == target.path->0);
        assert(path_same(after.seen[n], after.seen[n]));
        assert(is_environment_at(host, target, path));
        assert forall|k: int| 0 <= k < after.seen.len() implies traced_at(
            host,
            cwd,
            after.targets[before + k],
            #[trigger] after.seen[k],
            created,
        ) by {
            if k < n {
                assert(after.seen[k] == so_far.seen[k]);
                assert(after.targets[before + k] == so_far.targets[before + k]);
            }
        }
    }
}

proof fn lemma_traced_configured(
    host: HostView,
    cwd: PathView,
    so_far: PythonTargets,
    names: Seq<Seq<char>>,
)
    requires
        so_far.seen.len() == 0,
        forall|i: int|
            0 <= i < names.len() ==> (#[trigger] names[i] == "VIRTUAL_ENV"@ || names[i]
                == "CONDA_PREFIX"@ || names[i] == "UV_PROJECT_ENVIRONMENT"@),
    ensures
        ({
            let (after, new) = with_all_configured(host, so_far, cwd, names);
            &&& traced(host, cwd, so_far.targets.len(), after, false)
            &&& new ==> (variable(host.env, "UV_PROJECT_ENVIRONMENT"@) matches Some(value)
                && !holds_environment(host, path_in(cwd, value)) && !host.is_entry(
                path_in(cwd, value),
            ))
            &&& forall|i: int|
                0 <= i < names.len() ==> (variable(host.env, #[trigger] names[i]) matches Some(value)
                    ==> {
                    let path = path_in(cwd, value);
                    &&& holds_environment(host, path) ==> (host.canonical(path) matches Some(place)
                        ==> has_path(after.seen, place))
                    &&& names[i] == "UV_PROJECT_ENVIRONMENT"@ && !holds_environment(host, path)
                        && !host.is_entry(path) ==> new && (creation_path(
                        host,
                        path,
                    ) matches Ok(place) ==> has_path(after.seen, place))
                })
        }),
    decreases names.len(),
{
    if names.len() > 0 {
        let rest = names.drop_last();
        let name = names[names.len() - 1];
        assert forall|i: int| 0 <= i < rest.len() implies (#[trigger] rest[i] == "VIRTUAL_ENV"@
            || rest[i] == "CONDA_PREFIX"@ || rest[i] == "UV_PROJECT_ENVIRONMENT"@) by {
            assert(rest[i] == names[i]);
        }
        lemma_traced_configured(host, cwd, so_far, rest);
        let (before, new) = with_all_configured(host, so_far, cwd, rest);
        let (after, now) = with_all_configured(host, so_far, cwd, names);
        let start = so_far.targets.len();
        assert(name == names.last());
        if let Some(path) = configured_path(host, name, cwd) {
            assert(is_named_by(host, cwd, name, path));
            assert(may_be_environment(host, cwd, path));
            match environment_at(host, path) {
                Some(environment) => {
                    lemma_traced(host, cwd, start, before, path, environment, true, false);
                },
                None => {
                    if name == "UV_PROJECT_ENVIRONMENT"@ && !host.is_entry(path) {
                        lemma_traced(
                            host,
                            cwd,
                            start,
                            before,
                            path,
                            PythonEnvironment::Venv,
                            false,
                            false,
                        );
                    }
                },
            }
        }
        assert forall|i: int| 0 <= i < names.len() implies (variable(
            host.env,
            #[trigger] names[i],
        ) matches Some(value) ==> {
            let path = path_in(cwd, value);
            &&& holds_environment(host, path) ==> (host.canonical(path) matches Some(place)
                ==> has_path(after.seen, place))
            &&& names[i] == "UV_PROJECT_ENVIRONMENT"@ && !holds_environment(host, path)
                && !host.is_entry(path) ==> now && (creation_path(host, path) matches Ok(place)
                ==> has_path(after.seen, place))
        }) by {
            if i < rest.len() {
                assert(rest[i] == names[i]);
                assert(variable(host.env, rest[i]) == variable(host.env, names[i]));
            }
        }
    }
}

proof fn lemma_traced_usual(
    host: HostView,
    cwd: PathView,
    before: nat,
    so_far: PythonTargets,
    base: PathView,
    names: Seq<Seq<char>>,
)
    requires
        traced(host, cwd, before, so_far, false),
        base == project_base(host, cwd),
        forall|i: int|
            0 <= i < names.len() ==> (#[trigger] names[i] == ".venv"@ || names[i] == "venv"@
                || names[i] == "env"@),
    ensures
        ({
            let after = with_usual(host, so_far, base, names);
            &&& traced(host, cwd, before, after, false)
            &&& forall|i: int|
                0 <= i < names.len() ==> {
                    let path = path_child(base, #[trigger] names[i]);
                    holds_environment(host, path) ==> (host.canonical(path) matches Some(place)
                        ==> has_path(after.seen, place))
                }
            &&& forall|place: PathView|
                has_path(so_far.seen, place) ==> #[trigger] has_path(after.seen, place)
        }),
    decreases names.len(),
{
    if names.len() > 0 {
        let rest = names.drop_last();
        let name = names[names.len() - 1];
        assert forall|i: int| 0 <= i < rest.len() implies (#[trigger] rest[i] == ".venv"@ || rest[i]
            == "venv"@ || rest[i] == "env"@) by {
            assert(rest[i] == names[i]);
        }
        lemma_traced_usual(host, cwd, before, so_far, base, rest);
        let middle = with_usual(host, so_far, base, rest);
        let after = with_usual(host, so_far, base, names);
        assert(name == names.last());
        let path = path_child(base, name);
        assert(may_be_environment(host, cwd, path));
        if let Some(environment) = environment_at(host, path) {
            lemma_traced(host, cwd, before, middle, path, environment, true, false);
        }
        assert forall|i: int| 0 <= i < names.len() implies {
            let path = path_child(base, #[trigger] names[i]);
            holds_environment(host, path) ==> (host.canonical(path) matches Some(place)
                ==> has_path(after.seen, place))
        } by {
            if i < rest.len() {
                assert(rest[i] == names[i]);
                assert(path_child(base, rest[i]) == path_child(base, names[i]));
            }
        }
    }
}

/// What comes of the Python environments: where their targets begin, what is seen before
/// one is offered for creation in the project, and what is seen in the end.
proof fn lemma_environments(host: HostView, cwd: PathView) -> (r: (
    Seq<TargetView>,
    PythonTargets,
    PythonTargets,
))
    ensures
        r.0 == with_node_roots(
            host,
            with_cargo_roots(host, seq![system_target(), user_target()], cwd),
            cwd,
        ),
        r.2.targets == context_of(host, cwd).targets,
        traced(host, cwd, r.0.len(), r.1, false),
        traced(host, cwd, r.0.len(), r.2, true),
        r.1.seen.len() <= r.2.seen.len(),
        r.2.targets.take(r.1.targets.len() as int) == r.1.targets,
        forall|name: Seq<char>|
            #![trigger variable(host.env, name)]
            name == "VIRTUAL_ENV"@ || name == "CONDA_PREFIX"@ || name == "UV_PROJECT_ENVIRONMENT"@
                ==> (variable(host.env, name) matches Some(value) ==> {
                let path = path_in(cwd, value);
                &&& holds_environment(host, path) ==> (host.canonical(path) matches Some(place)
                    ==> has_path(r.1.seen, place))
                &&& name == "UV_PROJECT_ENVIRONMENT"@ && !holds_environment(host, path)
                    && !host.is_entry(path) ==> (creation_path(host, path) matches Ok(place)
                    ==> has_path(r.1.seen, place))
            }),
        forall|name: Seq<char>|
            name == ".venv"@ || name == "venv"@ || name == "env"@ ==> ({
                let path = #[trigger] path_child(project_base(host, cwd), name);
                holds_environment(host, path) ==> (host.canonical(path) matches Some(place)
                    ==> has_path(r.1.seen, place))
            }),
        ({
            let path = path_child(project_base(host, cwd), ".venv"@);
            let pending = (variable(host.env, "UV_PROJECT_ENVIRONMENT"@) matches Some(value)
                && !holds_environment(host, path_in(cwd, value)) && !host.is_entry(
                path_in(cwd, value),
            ));
            &&& !pending && !host.is_entry(path) ==> (creation_path(host, path) matches Ok(place)
                ==> has_path(r.2.seen, place))
            &&& pending || host.is_entry(path) ==> r.2 == r.1
        }),
{
    let base = project_base(host, cwd);
    let first = with_node_roots(
        host,
        with_cargo_roots(host, seq![system_target(), user_target()], cwd),
        cwd,
    );
    let none = PythonTargets { targets: first, seen: Seq::<PathView>::empty() };
    let variables = python_variables();
    let directories = python_directories();
    lemma_traced_configured(host, cwd, none, variables);
    let (configured, new) = with_all_configured(host, none, cwd, variables);
    lemma_traced_usual(host, cwd, first.len(), configured, base, directories);
    let usual = with_usual(host, configured, base, directories);
    let all = with_environments(host, first, cwd, base);
    let path = path_child(base, ".venv"@);
    assert(traced(host, cwd, first.len(), usual, true)) by {
        assert forall|k: int| 0 <= k < usual.seen.len() implies traced_at(
            host,
            cwd,
            usual.targets[first.len() + k],
            #[trigger] usual.seen[k],
            true,
        ) by {
            assert(traced_at(
                host,
                cwd,
                usual.targets[first.len() + k],
                usual.seen[k],
                false,
            ));
        }
    }
    assert(may_be_environment(host, cwd, path));
    if !new && !host.is_entry(path) {
        lemma_traced(
            host,
            cwd,
            first.len(),
            usual,
            path,
            PythonEnvironment::Venv,
            false,
            true,
        );
    }
    assert(all.targets.take(usual.targets.len() as int) =~= usual.targets);
    assert(variables[0] == "VIRTUAL_ENV"@ && variables[1] == "CONDA_PREFIX"@ && variables[2]
        == "UV_PROJECT_ENVIRONMENT"@);
    assert(directories[0] == ".venv"@ && directories[1] == "venv"@ && directories[2] == "env"@);
    (first, usual, all)
}

/// The environments of a project are offered: for each of `.venv`, `venv` and `env` in the
/// project, or in the current directory where there is none, at which an environment is
/// found whose path resolves, there is a target for an existing environment at that place;
/// unless a variable says that one is to be created at that very place.
pub proof fn law_project_environments_are_offered(host: HostView, cwd: PathView, name: Seq<char>)
    requires
        name == ".venv"@ || name == "venv"@ || name == "env"@,
        holds_environment(host, path_child(project_base(host, cwd), name)),
        host.canonical(path_child(project_base(host, cwd), name)) is Some,
        forall|place: PathView| #[trigger]
            awaits_creation(host, cwd, place) ==> !path_same(
                place,
                host.canonical(path_child(project_base(host, cwd), name))->0,
            ),
    ensures
        exists|i: int|
            0 <= i < context_of(host, cwd).targets.len() && (#[trigger] context_of(
                host,
                cwd,
            ).targets[i]).kind == TargetKind::PythonVenv && context_of(host, cwd).targets[i].exists
                && (context_of(host, cwd).targets[i].path matches Some(place) && path_same(
                place,
                host.canonical(path_child(project_base(host, cwd), name))->0,
            )),
{
    let (first, usual, all) = lemma_environments(host, cwd);
    let path = path_child(project_base(host, cwd), name);
    let place = host.canonical(path)->0;
    assert(has_path(usual.seen, place));
    lemma_seen_is_offered(host, cwd, first.len(), usual, all, place);
}

/// The environments that `VIRTUAL_ENV`, `CONDA_PREFIX` and `UV_PROJECT_ENVIRONMENT` name,
/// read in the current directory, are offered in the same way.
pub proof fn law_named_environments_are_offered(
    host: HostView,
    cwd: PathView,
    name: Seq<char>,
    value: PathView,
)
    requires
        name == "VIRTUAL_ENV"@ || name == "CONDA_PREFIX"@ || name == "UV_PROJECT_ENVIRONMENT"@,
        variable(host.env, name) == Some(value),
        holds_environment(host, path_in(cwd, value)),
        host.canonical(path_in(cwd, value)) is Some,
        forall|place: PathView| #[trigger]
            awaits_creation(host, cwd, place) ==> !path_same(
                place,
                host.canonical(path_in(cwd, value))->0,
            ),
    ensures
        exists|i: int|
            0 <= i < context_of(host, cwd).targets.len() && (#[trigger] context_of(
                host,
                cwd,
            ).targets[i]).kind == TargetKind::PythonVenv && context_of(host, cwd).targets[i].exists
                && (context_of(host, cwd).targets[i].path matches Some(place) && path_same(
                place,
                host.canonical(path_in(cwd, value))->0,
            )),
{
    let (first, usual, all) = lemma_environments(host, cwd);
    let place = host.canonical(path_in(cwd, value))->0;
    assert(has_path(usual.seen, place));
    lemma_seen_is_offered(host, cwd, first.len(), usual, all, place);
}

proof fn lemma_seen_is_offered(
    host: HostView,
    cwd: PathView,
    before: nat,
    usual: PythonTargets,
    all: PythonTargets,
    place: PathView,
)
    requires
        traced(host, cwd, before, usual, false),
        all.targets == context_of(host, cwd).targets,
        all.targets.len() >= usual.targets.len(),
        all.targets.take(usual.targets.len() as int) == usual.targets,
        has_path(usual.seen, place),
        forall|p: PathView| #[trigger] awaits_creation(host, cwd, p) ==> !path_same(p, place),
    ensures
        exists|i: int|
            0 <= i < context_of(host, cwd).targets.len() && (#[trigger] context_of(
                host,
                cwd,
            ).targets[i]).kind == TargetKind::PythonVenv && context_of(host, cwd).targets[i].exists
                && (context_of(host, cwd).targets[i].path matches Some(found) && path_same(
                found,
                place,
            )),
{
    let k = choose|k: int| 0 <= k < usual.seen.len() && path_same(#[trigger] usual.seen[k], place);
    let i = before + k;
    assert(all.targets.take(usual.targets.len() as int)[i] == all.targets[i]);
    assert(usual.targets[i].path == Some(usual.seen[k]));
    assert(!awaits_creation(host, cwd, usual.seen[k]));
    assert(context_of(host, cwd).targets[i].exists);
}

/// Where no environment is to be created elsewhere, and nothing is found at `.venv` in the
/// project, an environment at that place is offered, if the place resolves; and where
/// `UV_PROJECT_ENVIRONMENT` names a place at which nothing is found, one is offered there.
pub proof fn law_new_environment_is_offered(host: HostView, cwd: PathView, path: PathView)
    requires
        !host.is_entry(path),
        creation_path(host, path) is Ok,
        (is_named_by(host, cwd, "UV_PROJECT_ENVIRONMENT"@, path) && !holds_environment(host, path))
            || (path == path_child(project_base(host, cwd), ".venv"@) && !(variable(
            host.env,
            "UV_PROJECT_ENVIRONMENT"@,
        ) matches Some(value) && !holds_environment(host, path_in(cwd, value)) && !host.is_entry(
            path_in(cwd, value),
        ))),
    ensures
        exists|i: int|
            0 <= i < context_of(host, cwd).targets.len() && (#[trigger] context_of(
                host,
                cwd,
            ).targets[i]).kind == TargetKind::PythonVenv && (context_of(
                host,
                cwd,
            ).targets[i].path matches Some(place) && path_same(
                place,
                creation_path(host, path)->Ok_0,
            )),
{
    let (first, usual, all) = lemma_environments(host, cwd);
    let place = creation_path(host, path)->Ok_0;
    let before = first.len();
    if is_named_by(host, cwd, "UV_PROJECT_ENVIRONMENT"@, path) && !holds_environment(host, path) {
        assert(variable(host.env, "UV_PROJECT_ENVIRONMENT"@) is Some);
        assert(has_path(usual.seen, place));
        let k = choose|k: int|
            0 <= k < usual.seen.len() && path_same(#[trigger] usual.seen[k], place);
        let i = before + k;
        assert(all.targets.take(usual.targets.len() as int)[i] == all.targets[i]);
        assert(usual.targets[i].path == Some(usual.seen[k]));
        assert(context_of(host, cwd).targets[i].kind == TargetKind::PythonVenv);
    } else {
        assert(has_path(all.seen, place));
        let k = choose|k: int| 0 <= k < all.seen.len() && path_same(#[trigger] all.seen[k], place);
        let i = before + k;
        assert(all.targets[i].path == Some(all.seen[k]));
        assert(context_of(host, cwd).targets[i].kind == TargetKind::PythonVenv);
    }
}

/// Every Python target is an environment that is found in the project or that a variable
/// names, or one that is to be created there where nothing is found; it goes by its place.
pub proof fn law_python_targets_are_environments(host: HostView, cwd: PathView, i: int)
    requires
        0 <= i < context_of(host, cwd).targets.len(),
        context_of(host, cwd).targets[i].kind == TargetKind::PythonVenv,
    ensures
        exists|path: PathView| #[trigger]
            may_be_environment(host, cwd, path) && is_environment_at(
                host,
                context_of(host, cwd).targets[i],
                path,
            ),
{
    let (first, usual, all) = lemma_environments(host, cwd);
    law_other_targets_come_first(host, cwd);
    if i < first.len() {
        lemma_first_is_kept(host, cwd, first, usual, all, i);
    }
    let k = i - first.len();
    assert(all.targets[first.len() + k].path == Some(all.seen[k]));
}

/// What comes before the Python environments: the system, the user, install roots of Cargo
/// and then Node projects and workspaces.
pub proof fn law_other_targets_come_first(host: HostView, cwd: PathView)
    ensures
        ({
            let first = with_node_roots(
                host,
                with_cargo_roots(host, seq![system_target(), user_target()], cwd),
                cwd,
            );
            &&& first.len() >= 2
            &&& first[0].id == "system"@ && first[0].kind == TargetKind::System && first[0].exists
                && first[0].path is None && first[0].label == "system packages"@
            &&& first[1].id == "user"@ && first[1].kind == TargetKind::User && first[1].exists
                && first[1].path is None && first[1].label == "current user"@
            &&& forall|k: int|
                2 <= k < first.len() ==> ((#[trigger] first[k]).kind == TargetKind::CargoRoot
                    || first[k].kind == TargetKind::NodeProject || first[k].kind
                    == TargetKind::NodeWorkspace)
        }),
{
    let start = seq![system_target(), user_target()];
    let cargo = with_cargo_roots(host, start, cwd);
    let first = with_node_roots(host, cargo, cwd);
    assert(first[0] == start[0] && first[1] == start[1]);
}

/// Where Cargo installs to for the user is offered: what `CARGO_INSTALL_ROOT` names, else
/// what `CARGO_HOME` names, else `.cargo` in the home directory, each read in the current
/// directory and resolved; so is `.mate/cargo` in the nearest directory with a
/// `Cargo.toml`. The target goes by its place and exists if there is a directory.
pub proof fn law_cargo_roots_are_offered(host: HostView, cwd: PathView, path: PathView)
    requires
        ({
            ||| {
                let named = match variable(host.env, "CARGO_INSTALL_ROOT"@) {
                    Some(value) => Some(path_in(cwd, value)),
                    None => match variable(host.env, "CARGO_HOME"@) {
                        Some(value) => Some(path_in(cwd, value)),
                        None => match home(host) {
                            Some(home) => Some(path_child(home, ".cargo"@)),
                            None => None,
                        },
                    },
                };
                named matches Some(root) && (creation_path(
                    host,
                    path_in(cwd, root),
                ) matches Ok(resolved) && path == resolved)
            }
            ||| nearest_root(host, cwd, "Cargo.toml"@, 0) matches Some(project) && path
                == path_child(path_child(project, ".mate"@), "cargo"@)
        }),
        creation_path(host, path) is Ok,
    ensures
        exists|i: int|
            0 <= i < context_of(host, cwd).targets.len() && ({
                let target = #[trigger] context_of(host, cwd).targets[i];
                &&& target.kind == TargetKind::CargoRoot
                &&& target.id == "cargo-root:"@ + path_text(creation_path(host, path)->Ok_0)
            }),
{
    let (first, usual, all) = lemma_environments(host, cwd);
    let start = seq![system_target(), user_target()];
    let user = with_user_root(host, start, cwd);
    let cargo = with_cargo_roots(host, start, cwd);
    let id = "cargo-root:"@ + path_text(creation_path(host, path)->Ok_0);
    assert(system_target().id.len() < 11 && user_target().id.len() < 11 && "cargo-root:"@.len()
        == 11) by {
        reveal_strlit("system");
        reveal_strlit("user");
        reveal_strlit("cargo-root:");
    }
    assert(!has_target(start, id)) by {
        assert(id.len() >= 11);
        assert(start[0] == system_target() && start[1] == user_target());
    }
    assert(forall|k: int|
        2 <= k < user.len() ==> (#[trigger] user[k]).kind == TargetKind::CargoRoot);
    assert(user.len() >= 2 && user[0] == start[0] && user[1] == start[1]);
    assert(forall|k: int| 0 <= k < user.len() ==> #[trigger] cargo[k] == user[k]);
    let named = match variable(host.env, "CARGO_INSTALL_ROOT"@) {
        Some(value) => Some(path_in(cwd, value)),
        None => match variable(host.env, "CARGO_HOME"@) {
            Some(value) => Some(path_in(cwd, value)),
            None => match home(host) {
                Some(home) => Some(path_child(home, ".cargo"@)),
                None => None,
            },
        },
    };
    if (named matches Some(root) && (creation_path(
        host,
        path_in(cwd, root),
    ) matches Ok(resolved) && path == resolved)) {
        assert(user[2].id == id);
        assert(cargo[2].id == id && cargo[2].kind == TargetKind::CargoRoot);
        assert(first[2] == cargo[2]);
        lemma_first_is_kept(host, cwd, first, usual, all, 2);
    } else {
        assert(has_target(cargo, id)) by {
            if has_target(user, id) {
                let k = choose|k: int| 0 <= k < user.len() && (#[trigger] user[k]).id == id;
                assert(cargo[k].id == id);
            } else {
                assert(cargo[user.len() as int].id == id);
            }
        }
        let k = choose|k: int| 0 <= k < cargo.len() && (#[trigger] cargo[k]).id == id;
        assert(k >= 2) by {
            assert(cargo[0] == user[0] && cargo[1] == user[1]);
            assert(id.len() >= 11);
        }
        assert(cargo[k].kind == TargetKind::CargoRoot);
        assert(first[k] == cargo[k]);
        lemma_first_is_kept(host, cwd, first, usual, all, k);
    }
}

proof fn lemma_first_is_kept(
    host: HostView,
    cwd: PathView,
    first: Seq<TargetView>,
    usual: PythonTargets,
    all: PythonTargets,
    k: int,
)
    requires
        0 <= k < first.len(),
        first == with_node_roots(
            host,
            with_cargo_roots(host, seq![system_target(), user_target()], cwd),
            cwd,
        ),
    ensures
        k < context_of(host, cwd).targets.len(),
        context_of(host, cwd).targets[k] == first[k],
{
    law_context_targets(host, cwd);
    let targets = context_of(host, cwd).targets;
    assert(targets.take(first.len() as int)[k] == targets[k]);
}

/// Every install root of Cargo that is offered goes by its place, and exists if and only if
/// a directory is found there.
pub proof fn law_cargo_targets_go_by_their_place(
    host: HostView,
    targets: Seq<TargetView>,
    path: PathView,
    label: Seq<char>,
)
    ensures
        creation_path(host, path) is Err ==> with_cargo(host, targets, path, label) == targets,
        creation_path(host, path) matches Ok(place) ==> {
            let id = "cargo-root:"@ + path_text(place);
            let after = with_cargo(host, targets, path, label);
            &&& (exists|k: int| 0 <= k < targets.len() && (#[trigger] targets[k]).id == id) ==> after
                == targets
            &&& !(exists|k: int| 0 <= k < targets.len() && (#[trigger] targets[k]).id == id) ==> {
                &&& after == targets.push(after.last())
                &&& after.last().id == id
                &&& after.last().kind == TargetKind::CargoRoot
                &&& after.last().path == Some(place)
                &&& after.last().exists == host.is_dir(place)
                &&& after.last().label == label + " "@ + path_text(place)
            }
        },
{
}

/// The nearest directory with a file is the first, from the current directory upwards,
/// that has it; the search ends at the home directory, and at the top.
pub proof fn law_nearest_directory_counts(
    host: HostView,
    cwd: PathView,
    marker: Seq<char>,
    from: int,
    k: int,
)
    requires
        0 <= from,
    ensures
        from <= k <= cwd.parts.len() && host.is_file(path_child(path_ancestor(cwd, k), marker)) && (
        forall|j: int|
            from <= j <= k ==> !(home(host) matches Some(home) && path_same(
                home,
                #[trigger] path_ancestor(cwd, j),
            ))) && (forall|j: int|
            from <= j < k ==> !host.is_file(path_child(#[trigger] path_ancestor(cwd, j), marker)))
            ==> nearest_root(host, cwd, marker, from) == Some(path_ancestor(cwd, k)),
        from <= k <= cwd.parts.len() && (home(host) matches Some(home) && path_same(
            home,
            path_ancestor(cwd, k),
        )) && (forall|j: int|
            from <= j < k ==> !host.is_file(path_child(#[trigger] path_ancestor(cwd, j), marker)))
            ==> nearest_root(host, cwd, marker, from) is None,
        (forall|j: int|
            from <= j <= cwd.parts.len() ==> !host.is_file(
                path_child(#[trigger] path_ancestor(cwd, j), marker),
            )) ==> nearest_root(host, cwd, marker, from) is None,
    decreases cwd.parts.len() + 1 - from,
{
    if from <= cwd.parts.len() {
        law_nearest_directory_counts(host, cwd, marker, from + 1, k);
        assert(from <= k ==> path_ancestor(cwd, from) == path_ancestor(cwd, from));
    }
}

/// The nearest directory that has one of some entries is the first, from the current
/// directory upwards, that has one; the search ends at the home directory, and at the top.
pub proof fn law_nearest_marked_directory_counts(
    host: HostView,
    cwd: PathView,
    names: Seq<Seq<char>>,
    from: int,
    k: int,
)
    requires
        0 <= from,
    ensures
        from <= k <= cwd.parts.len() && has_marker(host, path_ancestor(cwd, k), names) && (forall|
            j: int,
        |
            from <= j <= k ==> !(home(host) matches Some(home) && path_same(
                home,
                #[trigger] path_ancestor(cwd, j),
            ))) && (forall|j: int|
            from <= j < k ==> !has_marker(host, #[trigger] path_ancestor(cwd, j), names)) ==> (
        nearest_marked(host, cwd, names, from) matches Some((root, markers)) && root
            == path_ancestor(cwd, k) && markers == markers_in(host, root, names)),
        from <= k <= cwd.parts.len() && (home(host) matches Some(home) && path_same(
            home,
            path_ancestor(cwd, k),
        )) && (forall|j: int|
            from <= j < k ==> !has_marker(host, #[trigger] path_ancestor(cwd, j), names))
            ==> nearest_marked(host, cwd, names, from) is None,
        (forall|j: int|
            from <= j <= cwd.parts.len() ==> !has_marker(
                host,
                #[trigger] path_ancestor(cwd, j),
                names,
            )) ==> nearest_marked(host, cwd, names, from) is None,
    decreases cwd.parts.len() + 1 - from,
{
    if from <= cwd.parts.len() {
        law_markers_are_found(host, path_ancestor(cwd, from), names);
        law_nearest_marked_directory_counts(host, cwd, names, from + 1, k);
        if from <= k <= cwd.parts.len() {
            law_markers_are_found(host, path_ancestor(cwd, k), names);
        }
        assert(from <= k ==> path_ancestor(cwd, from) == path_ancestor(cwd, from));
    }
}

/// Whether one of `names` is found in `directory`.
pub open spec fn has_marker(host: HostView, directory: PathView, names: Seq<Seq<char>>) -> bool {
    exists|i: int|
        0 <= i < names.len() && host.is_present(path_child(directory, #[trigger] names[i]))
}

/// The markers of a directory are those of the names that are found in it.
pub proof fn law_markers_are_found(host: HostView, directory: PathView, names: Seq<Seq<char>>)
    ensures
        forall|name: Seq<char>| #[trigger]
            markers_in(host, directory, names).contains(name) <==> names.contains(name)
                && host.is_present(path_child(directory, name)),
        markers_in(host, directory, names).len() > 0 <==> has_marker(host, directory, names),
    decreases names.len(),
{
    if names.len() > 0 {
        let rest = names.drop_last();
        let last = names[names.len() - 1];
        law_markers_are_found(host, directory, rest);
        let before = markers_in(host, directory, rest);
        let all = markers_in(host, directory, names);
        assert forall|name: Seq<char>| #[trigger] all.contains(name) <==> names.contains(name)
            && host.is_present(path_child(directory, name)) by {
            if before.contains(name) {
                let k = choose|k: int| 0 <= k < before.len() && before[k] == name;
                assert(all[k] == name);
                let m = choose|m: int| 0 <= m < rest.len() && rest[m] == name;
                assert(names[m] == name);
            }
            if names.contains(name) && name != last {
                let m = choose|m: int| 0 <= m < names.len() && names[m] == name;
                assert(rest[m] == name);
            }
            if all.contains(name) && !before.contains(name) {
                let k = choose|k: int| 0 <= k < all.len() && all[k] == name;
                if k < before.len() {
                    assert(before[k] == name);
                }
                assert(name == last);
            }
            if host.is_present(path_child(directory, last)) {
                assert(all[all.len() - 1] == last);
            }
        }
        if has_marker(host, directory, rest) {
            let i = choose|i: int|
                0 <= i < rest.len() && host.is_present(path_child(directory, #[trigger] rest[i]));
            assert(names[i] == rest[i]);
        } else if has_marker(host, directory, names) {
            let i = choose|i: int|
                0 <= i < names.len() && host.is_present(path_child(directory, #[trigger] names[i]));
            if i < rest.len() {
                assert(rest[i] == names[i]);
            }
        }
        if host.is_present(path_child(directory, last)) {
            assert(names[names.len() - 1] == last);
            assert(has_marker(host, directory, names));
        }
    }
}

/// A project begins where the nearest manifest is, else where the nearest working copy
/// begins; a workspace begins at the working copy, else at the project.
pub proof fn law_project_begins_at_the_manifest(host: HostView, cwd: PathView)
    ensures
        ({
            let manifest = nearest_marked(
                host,
                cwd,
                seq![
                    "pyproject.toml"@,
                    "uv.lock"@,
                    "requirements.txt"@,
                    "Pipfile"@,
                    "package.json"@,
                    "Cargo.toml"@,
                ],
                0,
            );
            let copy = nearest_marked(host, cwd, seq![".git"@, ".hg"@, ".svn"@], 0);
            let found = context_of(host, cwd);
            &&& found.cwd == cwd
            &&& manifest matches Some((root, markers)) ==> found.project_root == Some(root)
                && found.markers == markers
            &&& manifest is None ==> (copy matches Some((root, markers)) ==> found.project_root
                == Some(root) && found.markers == markers)
            &&& manifest is None && copy is None ==> found.project_root is None
                && found.workspace_root is None && found.markers.len() == 0
            &&& copy matches Some((root, _)) ==> found.workspace_root == Some(root)
            &&& copy is None ==> found.workspace_root == found.project_root
        }),
{
}

/// Whether a directory is the root of a Node workspace: it has a manifest, and the settings
/// of pnpm or Lerna, or a manifest that lists workspaces.
pub open spec fn begins_workspace(host: HostView, directory: PathView) -> bool {
    &&& host.is_file(path_child(directory, "package.json"@))
    &&& host.is_file(path_child(directory, "pnpm-workspace.yaml"@)) || host.is_file(
        path_child(directory, "lerna.json"@),
    ) || manifest_member(host, directory, "workspaces"@) == Some(MemberView::Array)
        || manifest_member(host, directory, "workspaces"@) == Some(MemberView::Object)
}

/// The nearest workspace is the first root of one, from the current directory upwards; the
/// search ends at the home directory, and at the top.
pub proof fn law_nearest_workspace_counts(host: HostView, cwd: PathView, from: int, k: int)
    requires
        0 <= from,
    ensures
        from <= k <= cwd.parts.len() && begins_workspace(host, path_ancestor(cwd, k)) && (forall|
            j: int,
        |
            from <= j <= k ==> !(home(host) matches Some(home) && path_same(
                home,
                #[trigger] path_ancestor(cwd, j),
            ))) && (forall|j: int|
            from <= j < k ==> !begins_workspace(host, #[trigger] path_ancestor(cwd, j)))
            ==> nearest_workspace(host, cwd, from) == Some(path_ancestor(cwd, k)),
        from <= k <= cwd.parts.len() && (home(host) matches Some(home) && path_same(
            home,
            path_ancestor(cwd, k),
        )) && (forall|j: int|
            from <= j < k ==> !begins_workspace(host, #[trigger] path_ancestor(cwd, j)))
            ==> nearest_workspace(host, cwd, from) is None,
        (forall|j: int|
            from <= j <= cwd.parts.len() ==> !begins_workspace(
                host,
                #[trigger] path_ancestor(cwd, j),
            )) ==> nearest_workspace(host, cwd, from) is None,
    decreases cwd.parts.len() + 1 - from,
{
    if from <= cwd.parts.len() {
        law_nearest_workspace_counts(host, cwd, from + 1, k);
        assert(from <= k ==> path_ancestor(cwd, from) == path_ancestor(cwd, from));
    }
}

/// Whether `target` is the Node project or workspace at `path`.
pub open spec fn is_node_target(
    host: HostView,
    target: TargetView,
    path: PathView,
    workspace: bool,
) -> bool {
    let place = match host.canonical(path) {
        Some(canonical) => canonical,
        None => path,
    };
    &&& target.path == Some(place)
    &&& target.exists == host.is_dir(place)
    &&& workspace ==> target.kind == TargetKind::NodeWorkspace && target.id == "node-workspace:"@
        + path_text(place)
    &&& !workspace ==> target.kind == TargetKind::NodeProject && target.id == "node-project:"@
        + path_text(place)
}

/// The nearest directory with a `package.json` is offered as a project, and the nearest
/// workspace behind it as one; a directory that is both is offered as a workspace only.
/// Without a `package.json` neither is offered.
pub proof fn law_node_projects_are_offered(host: HostView, targets: Seq<TargetView>, cwd: PathView)
    ensures
        ({
            let after = with_node_roots(host, targets, cwd);
            let n = targets.len() as int;
            match nearest_root(host, cwd, "package.json"@, 0) {
                None => after == targets,
                Some(project) => match nearest_workspace(host, cwd, 0) {
                    None => after.len() == n + 1 && after.take(n) == targets && is_node_target(
                        host,
                        after[n],
                        project,
                        false,
                    ),
                    Some(workspace) => if path_same(workspace, project) {
                        after.len() == n + 1 && after.take(n) == targets && is_node_target(
                            host,
                            after[n],
                            workspace,
                            true,
                        )
                    } else {
                        after.len() == n + 2 && after.take(n) == targets && is_node_target(
                            host,
                            after[n],
                            project,
                            false,
                        ) && is_node_target(host, after[n + 1], workspace, true)
                    },
                },
            }
        }),
        ({
            let first = with_node_roots(
                host,
                with_cargo_roots(host, seq![system_target(), user_target()], cwd),
                cwd,
            );
            &&& context_of(host, cwd).targets.len() >= first.len()
            &&& context_of(host, cwd).targets.take(first.len() as int) == first
        }),
{
    let after = with_node_roots(host, targets, cwd);
    assert(after.take(targets.len() as int) =~= targets);
    law_context_targets(host, cwd);
}

/// What a project is said to be managed by: what its manifest names before an `@`, else by
/// the lock file that is found, else npm.
pub proof fn law_lock_files_tell_the_manager(
    host: HostView,
    directory: PathView,
    name: Seq<char>,
    rest: Seq<char>,
)
    requires
        forall|i: int| 0 <= i < name.len() ==> name[i] != '@',
    ensures
        name.len() > 0 ==> manager_hint(
            host,
            directory,
            Some(MemberView::Text(name.push('@') + rest)),
        ) == name && manager_hint(host, directory, Some(MemberView::Text(name))) == name,
        manager_hint(host, directory, None) == if host.is_file(
            path_child(directory, "pnpm-lock.yaml"@),
        ) {
            "pnpm"@
        } else if host.is_file(path_child(directory, "yarn.lock"@)) {
            "yarn"@
        } else if host.is_file(path_child(directory, "bun.lock"@)) || host.is_file(
            path_child(directory, "bun.lockb"@),
        ) {
            "bun"@
        } else {
            "npm"@
        },
        manager_hint(host, directory, Some(MemberView::Array)) == manager_hint(
            host,
            directory,
            None,
        ),
{
    lemma_first_piece(name, '@', seq!['@'] + rest);
    lemma_first_piece(name, '@', Seq::empty());
    assert(name.push('@') + rest =~= name + (seq!['@'] + rest));
    assert(name + Seq::<char>::empty() =~= name);
}

proof fn lemma_first_piece(name: Seq<char>, c: char, rest: Seq<char>)
    requires
        forall|i: int| 0 <= i < name.len() ==> name[i] != c,
        rest.len() > 0 ==> rest[0] == c,
    ensures
        split_at_char(name + rest, c).len() > 0,
        split_at_char(name + rest, c)[0] == name,
    decreases name.len(),
{
    if name.len() == 0 {
        assert(name + rest =~= rest);
        assert(split_at_char(rest, c)[0] =~= name);
    } else {
        assert((name + rest).drop_first() =~= name.drop_first() + rest);
        lemma_first_piece(name.drop_first(), c, rest);
        let pieces = split_at_char(name.drop_first() + rest, c);
        assert(seq![name[0]] + pieces[0] =~= name);
    }
}

/// Cargo installs below `CARGO_INSTALL_ROOT`, else below `CARGO_HOME`, else below `.cargo`
/// of the home directory, and it is told which of the three it was.
pub proof fn law_cargo_installs_where_it_is_told(
    host: HostView,
    cwd: PathView,
    install_root: Option<PathView>,
    cargo_home: Option<PathView>,
    home: Option<PathView>,
)
    ensures
        ({
            let r = cargo_install_root(host, cwd, install_root, cargo_home, home);
            &&& install_root is Some ==> r == match creation_path(
                host,
                path_in(cwd, install_root->0),
            ) {
                Ok(root) => Some((root, "CARGO_INSTALL_ROOT"@)),
                Err(_) => None,
            }
            &&& install_root is None && cargo_home is Some ==> r == match creation_path(
                host,
                path_in(cwd, cargo_home->0),
            ) {
                Ok(root) => Some((root, "CARGO_HOME"@)),
                Err(_) => None,
            }
            &&& install_root is None && cargo_home is None && home is Some ==> r
                == match creation_path(host, path_in(cwd, path_child(home->0, ".cargo"@))) {
                Ok(root) => Some((root, "HOME"@)),
                Err(_) => None,
            }
            &&& install_root is None && cargo_home is None && home is None ==> r is None
        }),
{
}

/// The root of the user is offered under the name of what told of it.
pub proof fn law_user_root_is_labelled(host: HostView, targets: Seq<TargetView>, cwd: PathView)
    ensures
        match cargo_install_root(
            host,
            cwd,
            configured_path(host, "CARGO_INSTALL_ROOT"@, cwd),
            configured_path(host, "CARGO_HOME"@, cwd),
            home(host),
        ) {
            Some((root, source)) => with_user_root(host, targets, cwd) == with_cargo(
                host,
                targets,
                root,
                "Cargo install root ("@ + source + ")"@,
            ),
            None => with_user_root(host, targets, cwd) == targets,
        },
{
}

/// An environment has the interpreter that is at the usual place of the platform, else the
/// other one; it is one of venv if it has a `pyvenv.cfg`, else one of Conda if it has a
/// directory `conda-meta`.
pub proof fn law_environments_are_told_by_their_marks(host: HostView, path: PathView)
    ensures
        ({
            let marked = host.is_file(path_child(path, "pyvenv.cfg"@));
            let conda = host.is_dir(path_child(path, "conda-meta"@));
            let runs = host.is_file(venv_interpreter(host.platform, path)) || host.is_file(
                other_interpreter(host.platform, path),
            );
            &&& environment_at(host, path) == Some(PythonEnvironment::Venv) <==> runs && marked
            &&& environment_at(host, path) == Some(PythonEnvironment::Conda) <==> runs && !marked
                && conda
            &&& environment_at(host, path) is None <==> !runs || (!marked && !conda)
        }),
        host.is_file(venv_interpreter(host.platform, path)) ==> interpreter(host, path) == Some(
            venv_interpreter(host.platform, path),
        ),
        !host.is_file(venv_interpreter(host.platform, path)) && host.is_file(
            other_interpreter(host.platform, path),
        ) ==> interpreter(host, path) == Some(other_interpreter(host.platform, path)),
{
}

/// The label of a Node target tells what it is, where it is, which manager it is of, and
/// whether its dependencies are there.
pub proof fn law_node_target_is_labelled(host: HostView, path: PathView, workspace: bool)
    ensures
        ({
            let place = match host.canonical(path) {
                Some(canonical) => canonical,
                None => path,
            };
            let target = node_target(host, path, workspace);
            &&& target.path == Some(place)
            &&& target.exists == host.is_dir(place)
            &&& workspace ==> target.kind == TargetKind::NodeWorkspace && target.id
                == "node-workspace:"@ + path_text(place)
            &&& !workspace ==> target.kind == TargetKind::NodeProject && target.id
                == "node-project:"@ + path_text(place)
            &&& target.label == (if workspace {
                "Node workspace "@
            } else {
                "Node project "@
            }) + path_text(place) + " ("@ + manager_hint(
                host,
                place,
                manifest_member(host, place, "packageManager"@),
            ) + "; "@ + (if host.is_dir(path_child(place, "node_modules"@)) {
                "dependencies present"@
            } else {
                "dependencies not installed"@
            }) + ")"@
        }),
{
    let place = canonical_or(host, path);
    let a = if workspace {
        "Node workspace "@
    } else {
        "Node project "@
    };
    let b = path_text(place);
    let hint = manager_hint(host, place, manifest_member(host, place, "packageManager"@));
    let there = if host.is_dir(path_child(place, "node_modules"@)) {
        "dependencies present"@
    } else {
        "dependencies not installed"@
    };
    let parts = seq![a, b, " ("@, hint, "; "@, there, ")"@];
    reveal_with_fuel(concat, 8);
    assert(parts.drop_last() =~= seq![a, b, " ("@, hint, "; "@, there]);
    assert(parts.drop_last().drop_last() =~= seq![a, b, " ("@, hint, "; "@]);
    assert(parts.drop_last().drop_last().drop_last() =~= seq![a, b, " ("@, hint]);
    assert(parts.drop_last().drop_last().drop_last().drop_last() =~= seq![a, b, " ("@]);
    assert(seq![a, b, " ("@].drop_last() =~= seq![a, b]);
    assert(seq![a, b].drop_last() =~= seq![a]);
    assert(seq![a].drop_last() =~= Seq::empty());
    assert(Seq::<char>::empty() + a =~= a);
    assert(concat(seq![a]) == a);
    assert(concat(seq![a, b]) == a + b);
    assert(concat(seq![a, b, " ("@]) == a + b + " ("@);
    assert(concat(seq![a, b, " ("@, hint]) == a + b + " ("@ + hint);
    assert(concat(seq![a, b, " ("@, hint, "; "@]) == a + b + " ("@ + hint + "; "@);
    assert(concat(seq![a, b, " ("@, hint, "; "@, there]) == a + b + " ("@ + hint + "; "@ + there);
}

/// A member of a manifest is read only from a file of at most one mebibyte.
pub proof fn law_manifests_are_bounded(host: HostView, directory: PathView, key: Seq<char>)
    ensures
        match host.content(path_child(directory, "package.json"@)) {
            Some(bytes) => {
                &&& bytes.len() <= 1024 * 1024 ==> manifest_member(host, directory, key)
                    == member_of(bytes, key)
                &&& bytes.len() > 1024 * 1024 ==> manifest_member(host, directory, key) is None
            },
            None => manifest_member(host, directory, key) is None,
        },
{
}

} // verus!
