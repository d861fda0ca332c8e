//! Which paths have to be looked at before anything is decided.

use vstd::prelude::*;

use crate::adapters::lang::node::script_path;
use crate::context::{
    context_of, manifest_names, other_interpreter, ProjectContext, python_candidates,
    python_directories, python_variables, vcs_names, venv_interpreter,
};
use crate::host::{Host, HostView};
use crate::model::{Target, TargetView};
use crate::path::{FilePath, path_ancestor, path_child, path_in, PathView, Platform, unix_path};
use crate::platform::{
    canonical_or, canonicalize_or, creation_path, home, home_dir, resolve_for_creation,
    temporary_candidates, temporary_places,
};
use crate::process::{
    canonical_launch_directory, executable_name, file_name, launch_directory, system_candidates,
    system_places,
};
use crate::text::{list_of, views};

verus! {

broadcast use crate::text::group_views;

/// The entries of `directory` with the given names.
pub open spec fn entries(directory: PathView, names: Seq<Seq<char>>) -> Seq<PathView> {
    names.map_values(|name: Seq<char>| path_child(directory, name))
}

fn push_entries(list: &mut Vec<FilePath>, directory: &FilePath, names: &Vec<String>)
    ensures
        views(final(list)@) == views(old(list)@) + entries(directory@, views(names@)),
{
    let ghost start = views(list@);
    let ghost all = entries(directory@, views(names@));
    let n: usize = names.len();
    assert(views(list@) =~= start + all.take(0));
    for i in 0..n
        invariant
            n == names@.len(),
            all == entries(directory@, views(names@)),
            views(list@) == start + all.take(i as int),
    {
        list.push(directory.child(names[i].as_str()));
        assert(all[i as int] == path_child(directory@, names@[i as int]@));
        assert(views(list@) =~= start + all.take(i + 1));
    }
    assert(all.take(n as int) =~= all);
}

fn push_paths(list: &mut Vec<FilePath>, more: Vec<FilePath>)
    ensures
        views(final(list)@) == views(old(list)@) + views(more@),
{
    let mut more = more;
    let ghost start = list@;
    let ghost added = more@;
    list.append(&mut more);
    assert(list@ =~= start + added);
}

/// The variables that may hold a path that is looked at.
pub open spec fn path_variables() -> Seq<Seq<char>> {
    python_variables() + seq![
        "CARGO_INSTALL_ROOT"@,
        "CARGO_HOME"@,
        "HOME"@,
        "USERPROFILE"@,
        "TMP"@,
        "TEMP"@,
        "LOCALAPPDATA"@,
        "SystemRoot"@,
        "WINDIR"@,
    ]
}

/// The variables that may hold a path that is looked at.
pub fn path_variable_names() -> (r: Vec<String>)
    ensures
        views(r@) == path_variables(),
{
    let r = list_of(
        &[
            "VIRTUAL_ENV",
            "CONDA_PREFIX",
            "UV_PROJECT_ENVIRONMENT",
            "CARGO_INSTALL_ROOT",
            "CARGO_HOME",
            "HOME",
            "USERPROFILE",
            "TMP",
            "TEMP",
            "LOCALAPPDATA",
            "SystemRoot",
            "WINDIR",
        ],
    );
    assert(views(r@) =~= path_variables());
    r
}

// ---------------------------------------------------------------------------
// Projects
// ---------------------------------------------------------------------------

/// The names that are looked for in a directory that may belong to a project.
pub open spec fn project_names() -> Seq<Seq<char>> {
    manifest_names() + vcs_names() + seq![
        "pnpm-workspace.yaml"@,
        "lerna.json"@,
        "pnpm-lock.yaml"@,
        "yarn.lock"@,
        "bun.lock"@,
        "bun.lockb"@,
        "node_modules"@,
        ".cargo"@,
        ".mate"@,
    ]
}

fn project_name_list() -> (r: Vec<String>)
    ensures
        views(r@) == project_names(),
{
    let r = list_of(
        &[
            "pyproject.toml",
            "uv.lock",
            "requirements.txt",
            "Pipfile",
            "package.json",
            "Cargo.toml",
            ".git",
            ".hg",
            ".svn",
            "pnpm-workspace.yaml",
            "lerna.json",
            "pnpm-lock.yaml",
            "yarn.lock",
            "bun.lock",
            "bun.lockb",
            "node_modules",
            ".cargo",
            ".mate",
        ],
    );
    assert(views(r@) =~= project_names());
    r
}

/// What tells whether a directory is a Python environment.
pub open spec fn environment_places(platform: Platform, directory: PathView) -> Seq<PathView> {
    seq![
        directory,
        venv_interpreter(platform, directory),
        other_interpreter(platform, directory),
        path_child(directory, "pyvenv.cfg"@),
        path_child(directory, "conda-meta"@),
    ]
}

/// What tells whether a directory is a Python environment.
pub fn environment_paths(platform: Platform, directory: &FilePath) -> (r: Vec<FilePath>)
    ensures
        views(r@) == environment_places(platform, directory@),
{
    let mut r: Vec<FilePath> = Vec::new();
    r.push(directory.clone());
    push_paths(&mut r, python_candidates(platform, directory));
    r.push(directory.child("pyvenv.cfg"));
    r.push(directory.child("conda-meta"));
    assert(views(r@) =~= environment_places(platform, directory@));
    r
}

/// What is looked at in a directory that may belong to a project.
pub open spec fn project_places(platform: Platform, directory: PathView) -> Seq<PathView> {
    seq![directory] + entries(directory, project_names()) + seq![
        path_child(path_child(directory, ".mate"@), "cargo"@),
    ] + environment_places(platform, path_child(directory, python_directories()[0]))
        + environment_places(platform, path_child(directory, python_directories()[1]))
        + environment_places(platform, path_child(directory, python_directories()[2]))
}

/// What is looked at in a directory that may belong to a project.
pub fn project_paths(platform: Platform, directory: &FilePath) -> (r: Vec<FilePath>)
    ensures
        views(r@) == project_places(platform, directory@),
{
    let mut r: Vec<FilePath> = Vec::new();
    r.push(directory.clone());
    push_entries(&mut r, directory, &project_name_list());
    r.push(directory.child(".mate").child("cargo"));
    push_paths(&mut r, environment_paths(platform, &directory.child(".venv")));
    push_paths(&mut r, environment_paths(platform, &directory.child("venv")));
    push_paths(&mut r, environment_paths(platform, &directory.child("env")));
    assert(views(r@) =~= project_places(platform, directory@));
    r
}

// ---------------------------------------------------------------------------
// Commands
// ---------------------------------------------------------------------------

/// The names of the files that commands of users are found under.
pub open spec fn command_names(platform: Platform) -> Seq<Seq<char>> {
    seq![
        file_name(platform, "brew"@),
        file_name(platform, "cargo"@),
        file_name(platform, "node"@),
        file_name(platform, "npm"@),
        file_name(platform, "npx"@),
        file_name(platform, "pip"@),
        file_name(platform, "pip3"@),
        file_name(platform, "uv"@),
    ]
}

/// What is looked at in a directory that commands are looked for in.
pub open spec fn command_places(platform: Platform, directory: PathView) -> Seq<PathView> {
    seq![directory] + entries(directory, command_names(platform)) + seq![
        script_path(directory, "npm-cli.js"@),
        script_path(directory, "npx-cli.js"@),
    ]
}

/// What is looked at in a directory that commands are looked for in.
pub fn command_paths(platform: Platform, directory: &FilePath) -> (r: Vec<FilePath>)
    ensures
        views(r@) == command_places(platform, directory@),
{
    let mut names: Vec<String> = Vec::new();
    names.push(executable_name(platform, "brew"));
    names.push(executable_name(platform, "cargo"));
    names.push(executable_name(platform, "node"));
    names.push(executable_name(platform, "npm"));
    names.push(executable_name(platform, "npx"));
    names.push(executable_name(platform, "pip"));
    names.push(executable_name(platform, "pip3"));
    names.push(executable_name(platform, "uv"));
    assert(views(names@) =~= seq![
        file_name(platform, "brew"@),
        file_name(platform, "cargo"@),
        file_name(platform, "node"@),
        file_name(platform, "npm"@),
        file_name(platform, "npx"@),
        file_name(platform, "pip"@),
        file_name(platform, "pip3"@),
        file_name(platform, "uv"@),
    ]);
    let scripts = directory.child("node_modules").child("npm").child("bin");
    let mut r: Vec<FilePath> = Vec::new();
    r.push(directory.clone());
    push_entries(&mut r, directory, &names);
    r.push(scripts.child("npm-cli.js"));
    r.push(scripts.child("npx-cli.js"));
    assert(views(r@) =~= command_places(platform, directory@));
    r
}

/// What is looked at wherever mate is started: the managers of the system, `sudo`,
/// and the directories for temporary files.
pub open spec fn system_paths_of(platform: Platform) -> Seq<PathView> {
    system_places(platform, "apt-cache"@) + system_places(platform, "apt-get"@) + system_places(
        platform,
        "pacman"@,
    ) + system_places(platform, "sudo"@) + shared_places(platform)
}

/// The directories for temporary files that a platform has.
pub open spec fn shared_places(platform: Platform) -> Seq<PathView> {
    match platform {
        Platform::Unix => seq![
            unix_path("/tmp"@),
            unix_path("/var/tmp"@),
            unix_path("/dev/shm"@),
        ],
        Platform::Windows => Seq::empty(),
    }
}

/// What is looked at wherever mate is started.
pub fn system_paths(platform: Platform) -> (r: Vec<FilePath>)
    ensures
        views(r@) == system_paths_of(platform),
{
    let mut r = system_candidates(platform, "apt-cache");
    push_paths(&mut r, system_candidates(platform, "apt-get"));
    push_paths(&mut r, system_candidates(platform, "pacman"));
    push_paths(&mut r, system_candidates(platform, "sudo"));
    if let Platform::Unix = platform {
        r.push(FilePath::unix("/tmp"));
        r.push(FilePath::unix("/var/tmp"));
        r.push(FilePath::unix("/dev/shm"));
    }
    assert(views(r@) =~= system_paths_of(platform));
    r
}

// ---------------------------------------------------------------------------
// What depends on what was found
// ---------------------------------------------------------------------------

/// A path and all that it lies below.
pub open spec fn ancestors(path: PathView) -> Seq<PathView> {
    Seq::new(path.parts.len() + 1, |k: int| path_ancestor(path, k))
}

fn push_ancestors(list: &mut Vec<FilePath>, path: &FilePath)
    ensures
        views(final(list)@) == views(old(list)@) + ancestors(path@),
{
    let ghost start = views(list@);
    let ghost all = ancestors(path@);
    let n: usize = path.parts.len();
    assert(path@.parts.len() == n);
    assert(views(list@) =~= start + all.take(0));
    let mut k: usize = 0;
    loop
        invariant
            n == path.parts@.len(),
            n == path@.parts.len(),
            k <= n,
            start == views(old(list)@),
            all == ancestors(path@),
            views(list@) == start + all.take(k as int),
        decreases n - k,
    {
        list.push(path.ancestor(k));
        assert(all[k as int] == path_ancestor(path@, k as int));
        assert(views(list@) =~= start + all.take(k + 1));
        if k == n {
            assert(all.take(n + 1) =~= all);
            return ;
        }
        k = k + 1;
    }
}

/// Where a path that may have to be created leads to, and all that this lies below.
pub open spec fn resolved_places(host: HostView, path: PathView) -> Seq<PathView> {
    match creation_path(host, path) {
        Ok(found) => ancestors(found),
        Err(_) => Seq::empty(),
    }
}

fn push_resolved(list: &mut Vec<FilePath>, host: &Host, path: &FilePath)
    ensures
        views(final(list)@) == views(old(list)@) + resolved_places(host@, path@),
{
    if let Ok(found) = resolve_for_creation(host, path) {
        push_ancestors(list, &found);
    } else {
        assert(views(list@) + Seq::<PathView>::empty() =~= views(list@));
    }
}

/// What tells where a path that may have to be created leads to.
pub open spec fn creation_places(host: HostView, path: PathView) -> Seq<PathView> {
    ancestors(path) + resolved_places(host, path)
}

fn push_creation(list: &mut Vec<FilePath>, host: &Host, path: &FilePath)
    ensures
        views(final(list)@) == views(old(list)@) + creation_places(host@, path@),
{
    let ghost start = views(list@);
    push_ancestors(list, path);
    push_resolved(list, host, path);
    assert(views(list@) =~= start + creation_places(host@, path@));
}

/// What tells where a path that may have to be created leads to.
pub fn creation_paths(host: &Host, path: &FilePath) -> (r: Vec<FilePath>)
    ensures
        views(r@) == creation_places(host@, path@),
{
    let mut r: Vec<FilePath> = Vec::new();
    push_creation(&mut r, host, path);
    assert(views(r@) =~= creation_places(host@, path@));
    r
}

/// What tells where an install root leads to, which is resolved twice.
pub open spec fn root_places(host: HostView, path: PathView) -> Seq<PathView> {
    creation_places(host, path) + match creation_path(host, path) {
        Ok(found) => resolved_places(host, found),
        Err(_) => Seq::empty(),
    }
}

fn push_root(list: &mut Vec<FilePath>, host: &Host, path: &FilePath)
    ensures
        views(final(list)@) == views(old(list)@) + root_places(host@, path@),
{
    let ghost start = views(list@);
    push_creation(list, host, path);
    if let Ok(found) = resolve_for_creation(host, path) {
        push_resolved(list, host, &found);
    }
    assert(views(list@) =~= start + root_places(host@, path@));
}

/// What is looked at for a directory that the current one lies below.
pub open spec fn level_places(host: HostView, directory: PathView) -> Seq<PathView> {
    project_places(host.platform, directory) + project_places(
        host.platform,
        canonical_or(host, directory),
    ) + creation_places(host, path_child(path_child(directory, ".mate"@), "cargo"@))
        + creation_places(host, path_child(directory, ".venv"@))
}

fn push_level(list: &mut Vec<FilePath>, host: &Host, directory: &FilePath)
    ensures
        views(final(list)@) == views(old(list)@) + level_places(host@, directory@),
{
    let ghost start = views(list@);
    push_paths(list, project_paths(host.platform, directory));
    push_paths(list, project_paths(host.platform, &canonicalize_or(host, directory)));
    push_creation(list, host, &directory.child(".mate").child("cargo"));
    push_creation(list, host, &directory.child(".venv"));
    assert(views(list@) =~= start + level_places(host@, directory@));
}

/// What is looked at for the first `n` of `cwd` and the directories that it lies
/// below.
pub open spec fn levels(host: HostView, cwd: PathView, n: nat) -> Seq<PathView>
    decreases n,
{
    if n == 0 {
        Seq::empty()
    } else {
        levels(host, cwd, (n - 1) as nat) + level_places(host, path_ancestor(cwd, n - 1))
    }
}

fn push_levels(list: &mut Vec<FilePath>, host: &Host, cwd: &FilePath)
    ensures
        views(final(list)@) == views(old(list)@) + levels(host@, cwd@, cwd@.parts.len() + 1),
{
    let ghost start = views(list@);
    let n: usize = cwd.parts.len();
    assert(cwd@.parts.len() == n);
    assert(views(list@) =~= start + levels(host@, cwd@, 0));
    let mut k: usize = 0;
    loop
        invariant
            n == cwd.parts@.len(),
            n == cwd@.parts.len(),
            k <= n,
            start == views(old(list)@),
            views(list@) == start + levels(host@, cwd@, k as nat),
        decreases n - k,
    {
        push_level(list, host, &cwd.ancestor(k));
        assert(views(list@) =~= start + levels(host@, cwd@, (k + 1) as nat));
        if k == n {
            return ;
        }
        k = k + 1;
    }
}

/// What is looked at for the path that a variable holds.
pub open spec fn variable_places(host: HostView, cwd: PathView, path: PathView) -> Seq<PathView> {
    seq![path] + environment_places(host.platform, path_in(cwd, path)) + creation_places(
        host,
        path_in(cwd, path),
    ) + root_places(host, path_in(cwd, path_in(cwd, path)))
}

pub open spec fn variables_places(
    host: HostView,
    cwd: PathView,
    env: Seq<(Seq<char>, PathView)>,
) -> Seq<PathView>
    decreases env.len(),
{
    if env.len() == 0 {
        Seq::empty()
    } else {
        variables_places(host, cwd, env.drop_last()) + variable_places(host, cwd, env.last().1)
    }
}

fn push_variable(list: &mut Vec<FilePath>, host: &Host, cwd: &FilePath, value: &FilePath)
    ensures
        views(final(list)@) == views(old(list)@) + variable_places(host@, cwd@, value@),
{
    let ghost start = views(list@);
    let path = cwd.resolve(value);
    list.push(value.clone());
    push_paths(list, environment_paths(host.platform, &path));
    push_creation(list, host, &path);
    push_root(list, host, &cwd.resolve(&path));
    assert(views(list@) =~= start + variable_places(host@, cwd@, value@));
}

fn push_variables(list: &mut Vec<FilePath>, host: &Host, cwd: &FilePath)
    ensures
        views(final(list)@) == views(old(list)@) + variables_places(host@, cwd@, host@.env),
{
    let ghost start = views(list@);
    let ghost all = host@.env;
    let n: usize = host.env.len();
    assert(views(list@) =~= start + variables_places(host@, cwd@, all.take(0)));
    for i in 0..n
        invariant
            n == host.env@.len(),
            all == views(host.env@),
            views(list@) == start + variables_places(host@, cwd@, all.take(i as int)),
    {
        proof {
            assert(all.take(i + 1).drop_last() =~= all.take(i as int));
            assert(all.take(i + 1).last() == host.env@[i as int]@);
        }
        push_variable(list, host, cwd, &host.env[i].path);
        assert(views(list@) =~= start + variables_places(host@, cwd@, all.take(i + 1)));
    }
    assert(all.take(n as int) =~= all);
}

/// What is looked at for the install root below the home directory.
pub open spec fn home_places(host: HostView, cwd: PathView) -> Seq<PathView> {
    match home(host) {
        Some(home) => root_places(host, path_in(cwd, path_child(home, ".cargo"@))),
        None => Seq::empty(),
    }
}

/// What is looked at to find the project and its targets.
pub open spec fn context_places(host: HostView, cwd: PathView) -> Seq<PathView> {
    levels(host, cwd, cwd.parts.len() + 1) + variables_places(host, cwd, host.env) + home_places(
        host,
        cwd,
    )
}

fn push_context(list: &mut Vec<FilePath>, host: &Host, cwd: &FilePath)
    ensures
        views(final(list)@) == views(old(list)@) + context_places(host@, cwd@),
{
    let ghost start = views(list@);
    push_levels(list, host, cwd);
    push_variables(list, host, cwd);
    if let Some(home) = home_dir(host) {
        push_root(list, host, &cwd.resolve(&home.child(".cargo")));
    }
    assert(views(list@) =~= start + context_places(host@, cwd@));
}

/// The canonical forms of paths that have one.
pub open spec fn canonical_forms(host: HostView, list: Seq<PathView>) -> Seq<PathView>
    decreases list.len(),
{
    if list.len() == 0 {
        Seq::empty()
    } else {
        let rest = canonical_forms(host, list.drop_last());
        match host.canonical(list.last()) {
            Some(path) => rest.push(path),
            None => rest,
        }
    }
}

fn push_forms(list: &mut Vec<FilePath>, host: &Host, paths: Vec<FilePath>)
    ensures
        views(final(list)@) == views(old(list)@) + (views(paths@) + canonical_forms(
            host@,
            views(paths@),
        )),
{
    let ghost start = views(list@);
    let ghost all = views(paths@);
    let mut forms: Vec<FilePath> = Vec::new();
    let n: usize = paths.len();
    assert(views(forms@) =~= canonical_forms(host@, all.take(0)));
    for i in 0..n
        invariant
            n == paths@.len(),
            all == views(paths@),
            views(forms@) == canonical_forms(host@, all.take(i as int)),
    {
        proof {
            assert(all.take(i + 1).drop_last() =~= all.take(i as int));
            assert(all.take(i + 1).last() == paths@[i as int]@);
        }
        if let Some(path) = host.canonical(&paths[i]) {
            forms.push(path);
        }
    }
    assert(all.take(n as int) =~= all);
    push_paths(list, paths);
    push_paths(list, forms);
    assert(views(list@) =~= start + (all + canonical_forms(host@, all)));
}

/// What is looked at for a directory of commands.
pub open spec fn directory_places(host: HostView, directory: PathView) -> Seq<PathView> {
    named_directory(host, directory) + match launch_directory(host, directory) {
        Some(canonical) => command_places(host.platform, canonical) + canonical_forms(
            host,
            command_places(host.platform, canonical),
        ),
        None => Seq::empty(),
    }
}

/// The directory that an entry of the search path names.
pub open spec fn named_directory(host: HostView, directory: PathView) -> Seq<PathView> {
    if directory.root.len() == 0 && directory.parts.len() == 0 {
        match host.current_dir {
            Some(current) => seq![current],
            None => Seq::empty(),
        }
    } else {
        seq![directory]
    }
}

fn push_directory(list: &mut Vec<FilePath>, host: &Host, directory: &FilePath)
    ensures
        views(final(list)@) == views(old(list)@) + directory_places(host@, directory@),
{
    let ghost start = views(list@);
    assert(directory@.parts.len() == directory.parts@.len());
    if directory.root.as_str().is_empty() && directory.parts.len() == 0 {
        if let Some(current) = &host.current_dir {
            list.push(current.clone());
        }
    } else {
        list.push(directory.clone());
    }
    assert(views(list@) =~= start + named_directory(host@, directory@));
    if let Some(canonical) = canonical_launch_directory(host, directory) {
        push_forms(list, host, command_paths(host.platform, &canonical));
    }
    assert(views(list@) =~= start + directory_places(host@, directory@));
}

pub open spec fn directories_places(host: HostView, directories: Seq<PathView>) -> Seq<PathView>
    decreases directories.len(),
{
    if directories.len() == 0 {
        Seq::empty()
    } else {
        directories_places(host, directories.drop_last()) + directory_places(
            host,
            directories.last(),
        )
    }
}

/// What is looked at to find the commands of managers.
pub open spec fn machine_places(host: HostView) -> Seq<PathView> {
    system_paths_of(host.platform) + canonical_forms(host, system_paths_of(host.platform))
        + temporary_places(host) + directories_places(host, host.search_path)
}

fn push_machine(list: &mut Vec<FilePath>, host: &Host)
    ensures
        views(final(list)@) == views(old(list)@) + machine_places(host@),
{
    let ghost start = views(list@);
    push_forms(list, host, system_paths(host.platform));
    push_paths(list, temporary_candidates(host));
    let ghost before = views(list@);
    let ghost all = host@.search_path;
    let n: usize = host.search_path.len();
    assert(views(list@) =~= before + directories_places(host@, all.take(0)));
    for i in 0..n
        invariant
            n == host.search_path@.len(),
            all == views(host.search_path@),
            views(list@) == before + directories_places(host@, all.take(i as int)),
    {
        proof {
            assert(all.take(i + 1).drop_last() =~= all.take(i as int));
            assert(all.take(i + 1).last() == host.search_path@[i as int]@);
        }
        push_directory(list, host, &host.search_path[i]);
        assert(views(list@) =~= before + directories_places(host@, all.take(i + 1)));
    }
    assert(all.take(n as int) =~= all);
    assert(views(list@) =~= start + machine_places(host@));
}

/// What is looked at in targets: whether they are Python environments.
pub open spec fn target_places(platform: Platform, targets: Seq<TargetView>) -> Seq<PathView>
    decreases targets.len(),
{
    if targets.len() == 0 {
        Seq::empty()
    } else {
        target_places(platform, targets.drop_last()) + match targets.last().path {
            Some(path) => environment_places(platform, path),
            None => Seq::empty(),
        }
    }
}

fn push_targets(list: &mut Vec<FilePath>, platform: Platform, targets: &Vec<Target>)
    ensures
        views(final(list)@) == views(old(list)@) + target_places(platform, views(targets@)),
{
    let ghost start = views(list@);
    let ghost all = views(targets@);
    let n: usize = targets.len();
    assert(views(list@) =~= start + target_places(platform, all.take(0)));
    for i in 0..n
        invariant
            n == targets@.len(),
            all == views(targets@),
            views(list@) == start + target_places(platform, all.take(i as int)),
    {
        proof {
            assert(all.take(i + 1).drop_last() =~= all.take(i as int));
            assert(all.take(i + 1).last() == targets@[i as int]@);
        }
        if let Some(path) = &targets[i].path {
            push_paths(list, environment_paths(platform, path));
        }
        assert(views(list@) =~= start + target_places(platform, all.take(i + 1)));
    }
    assert(all.take(n as int) =~= all);
}

/// All that has to be looked at in and around `cwd`, as far as what is known so far
/// tells.
pub open spec fn survey(host: HostView, cwd: PathView) -> Seq<PathView> {
    context_places(host, cwd) + machine_places(host) + target_places(
        host.platform,
        context_of(host, cwd).targets,
    )
}

/// All that has to be looked at in and around `cwd`, as far as what is known so far
/// tells. What is found may call for more.
pub fn survey_paths(host: &Host, cwd: &FilePath) -> (r: Vec<FilePath>)
    ensures
        views(r@) == survey(host@, cwd@),
{
    let mut r: Vec<FilePath> = Vec::new();
    push_context(&mut r, host, cwd);
    push_machine(&mut r, host);
    let context = ProjectContext::discover(host, cwd.clone());
    push_targets(&mut r, host.platform, &context.targets);
    assert(views(r@) =~= survey(host@, cwd@));
    r
}

} // verus!
