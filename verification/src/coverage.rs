//! What is surveyed is all that is decided on: two machines that agree on it are
//! alike to the library.

use vstd::prelude::*;

use crate::adapters::ManagerAdapter;
use crate::adapters::lang::node::{LauncherView, node_launchers, script_launchers, script_path};
use crate::adapters::lang::node::npm::{
    lemma_npm_probes, npm_instances, npm_probes, prefix_scope, printed_prefix,
};
use crate::adapters::registry::Adapter;
use crate::context::{
    ContextView,
    configured_path, context_of, environment_at, interpreter, is_home,
    law_project_is_marked, manager_hint, manifest_member, manifest_names, markers_in,
    nearest_marked, nearest_root, nearest_workspace, node_target, project_roots, python_directories,
    python_variables, PythonEnvironment, PythonTargets, system_target, user_target, vcs_names,
    with_all_configured, with_cargo, with_cargo_roots, with_configured, with_environments,
    with_node_roots, with_python, with_user_root, with_usual,
};
use crate::host::{find_facts, HostView, variable};
use crate::model::{InstanceView, ScopeView, TargetKind, TargetView};
use crate::path::{path_ancestor, path_child, path_in, PathView, Platform};
use crate::platform::{
    canonical_or, creation_path, distinct_canonical, first_canonical, home, home_names,
    nearest_resolved, temporary_places,
};
use crate::process::{
    file_name, first_trusted, launch_directory, launchers, OutputView, safe_executables,
    system_places, user_commands,
};
use crate::survey::{
    ancestors, canonical_forms, command_names, command_places, context_places, creation_places,
    directories_places, entries, environment_places, home_places, level_places, levels,
    machine_places, named_directory, project_names, project_places, root_places, shared_places,
    survey, system_paths_of, target_places, variable_places, variables_places,
};

verus! {

/// Whether two machines have the same at a path.
pub open spec fn agree_at(a: HostView, b: HostView, path: PathView) -> bool {
    find_facts(a.paths, path) == find_facts(b.paths, path)
}

/// Whether two machines have the same at each of `list`.
pub open spec fn agree(a: HostView, b: HostView, list: Seq<PathView>) -> bool {
    forall|i: int| 0 <= i < list.len() ==> agree_at(a, b, #[trigger] list[i])
}

/// Whether two machines are set up alike: of one platform, with the same directories
/// and variables.
pub open spec fn alike(a: HostView, b: HostView) -> bool {
    &&& a.platform == b.platform
    &&& a.current_dir == b.current_dir
    &&& a.temp_dir == b.temp_dir
    &&& a.search_path == b.search_path
    &&& a.env == b.env
}

pub broadcast proof fn lemma_agree_add(
    a: HostView,
    b: HostView,
    x: Seq<PathView>,
    y: Seq<PathView>,
)
    ensures
        #[trigger] agree(a, b, x + y) == (agree(a, b, x) && agree(a, b, y)),
{
    if agree(a, b, x + y) {
        assert forall|i: int| 0 <= i < x.len() implies agree_at(a, b, #[trigger] x[i]) by {
            assert((x + y)[i] == x[i]);
        }
        assert forall|i: int| 0 <= i < y.len() implies agree_at(a, b, #[trigger] y[i]) by {
            assert((x + y)[x.len() + i] == y[i]);
        }
    }
}

// ---------------------------------------------------------------------------
// Paths that may have to be created
// ---------------------------------------------------------------------------

proof fn lemma_self_ancestor(path: PathView)
    ensures
        path_ancestor(path, 0) == path,
        ancestors(path).len() > 0,
        ancestors(path)[0] == path,
{
    assert(path_ancestor(path, 0) =~= path);
}

proof fn lemma_nearest_agrees(a: HostView, b: HostView, path: PathView, from: int)
    requires
        agree(a, b, ancestors(path)),
        0 <= from,
    ensures
        nearest_resolved(a, path, from) == nearest_resolved(b, path, from),
    decreases path.parts.len() + 1 - from,
{
    if from <= path.parts.len() {
        assert(ancestors(path)[from] == path_ancestor(path, from));
        lemma_nearest_agrees(a, b, path, from + 1);
    }
}

proof fn lemma_creation_agrees(a: HostView, b: HostView, path: PathView)
    requires
        agree(a, b, ancestors(path)),
    ensures
        creation_path(a, path) == creation_path(b, path),
        agree_at(a, b, path),
{
    lemma_self_ancestor(path);
    assert(agree_at(a, b, ancestors(path)[0]));
    lemma_nearest_agrees(a, b, path, 0);
}

proof fn lemma_with_cargo_agrees(
    a: HostView,
    b: HostView,
    targets: Seq<TargetView>,
    path: PathView,
    label: Seq<char>,
)
    requires
        agree(a, b, creation_places(a, path)),
    ensures
        with_cargo(a, targets, path, label) == with_cargo(b, targets, path, label),
{
    broadcast use lemma_agree_add;

    lemma_creation_agrees(a, b, path);
    match creation_path(a, path) {
        Ok(found) => {
            lemma_self_ancestor(found);
            assert(agree_at(a, b, ancestors(found)[0]));
        },
        Err(_) => {},
    }
}

// ---------------------------------------------------------------------------
// Variables and levels
// ---------------------------------------------------------------------------

proof fn lemma_variables_agree(
    a: HostView,
    b: HostView,
    cwd: PathView,
    env: Seq<(Seq<char>, PathView)>,
    i: int,
)
    requires
        agree(a, b, variables_places(a, cwd, env)),
        0 <= i < env.len(),
    ensures
        agree(a, b, variable_places(a, cwd, env[i].1)),
    decreases env.len(),
{
    broadcast use lemma_agree_add;

    if i < env.len() - 1 {
        lemma_variables_agree(a, b, cwd, env.drop_last(), i);
        assert(env.drop_last()[i] == env[i]);
    }
}

proof fn lemma_variable_listed(env: Seq<(Seq<char>, PathView)>, name: Seq<char>) -> (i: int)
    ensures
        variable(env, name) matches Some(path) ==> 0 <= i < env.len() && env[i].1 == path,
    decreases env.len(),
{
    if env.len() == 0 {
        0
    } else if env[0].0 == name {
        0
    } else {
        let i = lemma_variable_listed(env.drop_first(), name);
        i + 1
    }
}

proof fn lemma_variable_agrees(a: HostView, b: HostView, cwd: PathView, name: Seq<char>)
    requires
        agree(a, b, variables_places(a, cwd, a.env)),
    ensures
        variable(a.env, name) matches Some(path) ==> agree(
            a,
            b,
            variable_places(a, cwd, path),
        ) && agree_at(a, b, path),
{
    broadcast use lemma_agree_add;

    let i = lemma_variable_listed(a.env, name);
    match variable(a.env, name) {
        Some(path) => {
            lemma_variables_agree(a, b, cwd, a.env, i);
            assert(agree(a, b, seq![path]));
            assert(seq![path][0] == path);
        },
        None => {},
    }
}

proof fn lemma_first_canonical_agrees(
    a: HostView,
    b: HostView,
    cwd: PathView,
    names: Seq<Seq<char>>,
)
    requires
        alike(a, b),
        agree(a, b, variables_places(a, cwd, a.env)),
    ensures
        first_canonical(a, names) == first_canonical(b, names),
    decreases names.len(),
{
    if names.len() > 0 {
        lemma_variable_agrees(a, b, cwd, names[0]);
        lemma_first_canonical_agrees(a, b, cwd, names.drop_first());
    }
}

proof fn lemma_home_agrees(a: HostView, b: HostView, cwd: PathView)
    requires
        alike(a, b),
        agree(a, b, variables_places(a, cwd, a.env)),
    ensures
        home(a) == home(b),
{
    lemma_first_canonical_agrees(a, b, cwd, home_names(a.platform));
}

/// Whether two machines agree on `cwd` and what it lies below.
spec fn levels_agree(a: HostView, b: HostView, cwd: PathView) -> bool {
    forall|k: int|
        0 <= k <= cwd.parts.len() ==> agree(a, b, #[trigger] level_places(a, path_ancestor(cwd, k)))
}

proof fn lemma_level_agrees(a: HostView, b: HostView, cwd: PathView, n: nat, k: int)
    requires
        agree(a, b, levels(a, cwd, n)),
        0 <= k < n,
    ensures
        agree(a, b, level_places(a, path_ancestor(cwd, k))),
    decreases n,
{
    broadcast use lemma_agree_add;

    if k < n - 1 {
        lemma_level_agrees(a, b, cwd, (n - 1) as nat, k);
    }
}

/// What machines that agree on a project directory agree on in it.
proof fn lemma_project_agrees(a: HostView, b: HostView, d: PathView)
    requires
        alike(a, b),
        agree(a, b, project_places(a.platform, d)),
    ensures
        agree_at(a, b, d),
        forall|i: int|
            0 <= i < manifest_names().len() ==> agree_at(
                a,
                b,
                path_child(d, #[trigger] manifest_names()[i]),
            ),
        forall|i: int|
            0 <= i < vcs_names().len() ==> agree_at(
                a,
                b,
                path_child(d, #[trigger] vcs_names()[i]),
            ),
        agree_at(a, b, path_child(d, "package.json"@)),
        agree_at(a, b, path_child(d, "Cargo.toml"@)),
        agree_at(a, b, path_child(d, "pnpm-workspace.yaml"@)),
        agree_at(a, b, path_child(d, "lerna.json"@)),
        agree_at(a, b, path_child(d, "pnpm-lock.yaml"@)),
        agree_at(a, b, path_child(d, "yarn.lock"@)),
        agree_at(a, b, path_child(d, "bun.lock"@)),
        agree_at(a, b, path_child(d, "bun.lockb"@)),
        agree_at(a, b, path_child(d, "node_modules"@)),
        forall|i: int|
            0 <= i < python_directories().len() ==> agree(
                a,
                b,
                environment_places(a.platform, path_child(d, #[trigger] python_directories()[i])),
            ),
{
    broadcast use lemma_agree_add;

    let names = project_names();
    let list = entries(d, names);
    assert(agree(a, b, seq![d]));
    assert(seq![d][0] == d);
    assert(agree(a, b, list));
    assert forall|i: int| 0 <= i < names.len() implies agree_at(
        a,
        b,
        path_child(d, #[trigger] names[i]),
    ) by {
        assert(list[i] == path_child(d, names[i]));
    }
    assert forall|i: int| 0 <= i < manifest_names().len() implies agree_at(
        a,
        b,
        path_child(d, #[trigger] manifest_names()[i]),
    ) by {
        assert(names[i] == manifest_names()[i]);
    }
    assert forall|i: int| 0 <= i < vcs_names().len() implies agree_at(
        a,
        b,
        path_child(d, #[trigger] vcs_names()[i]),
    ) by {
        assert(names[manifest_names().len() + i] == vcs_names()[i]);
    }
    assert(manifest_names()[4] == "package.json"@);
    assert(manifest_names()[5] == "Cargo.toml"@);
    assert(names[9] == "pnpm-workspace.yaml"@);
    assert(names[10] == "lerna.json"@);
    assert(names[11] == "pnpm-lock.yaml"@);
    assert(names[12] == "yarn.lock"@);
    assert(names[13] == "bun.lock"@);
    assert(names[14] == "bun.lockb"@);
    assert(names[15] == "node_modules"@);
}

proof fn lemma_markers_agree(
    a: HostView,
    b: HostView,
    d: PathView,
    names: Seq<Seq<char>>,
)
    requires
        forall|i: int|
            0 <= i < names.len() ==> agree_at(a, b, path_child(d, #[trigger] names[i])),
    ensures
        markers_in(a, d, names) == markers_in(b, d, names),
    decreases names.len(),
{
    if names.len() > 0 {
        let rest = names.drop_last();
        assert forall|i: int| 0 <= i < rest.len() implies agree_at(
            a,
            b,
            path_child(d, #[trigger] rest[i]),
        ) by {
            assert(rest[i] == names[i]);
        }
        lemma_markers_agree(a, b, d, rest);
        assert(agree_at(a, b, path_child(d, names[names.len() - 1])));
    }
}

proof fn lemma_marked_agrees(
    a: HostView,
    b: HostView,
    cwd: PathView,
    names: Seq<Seq<char>>,
    from: int,
)
    requires
        alike(a, b),
        home(a) == home(b),
        levels_agree(a, b, cwd),
        names == manifest_names() || names == vcs_names(),
        0 <= from,
    ensures
        nearest_marked(a, cwd, names, from) == nearest_marked(b, cwd, names, from),
    decreases cwd.parts.len() + 1 - from,
{
    broadcast use lemma_agree_add;

    if from <= cwd.parts.len() {
        let d = path_ancestor(cwd, from);
        assert(agree(a, b, level_places(a, d)));
        lemma_project_agrees(a, b, d);
        lemma_markers_agree(a, b, d, names);
        assert(is_home(a, d) == is_home(b, d));
        lemma_marked_agrees(a, b, cwd, names, from + 1);
    }
}

proof fn lemma_root_agrees(
    a: HostView,
    b: HostView,
    cwd: PathView,
    marker: Seq<char>,
    from: int,
)
    requires
        alike(a, b),
        home(a) == home(b),
        levels_agree(a, b, cwd),
        marker == "package.json"@ || marker == "Cargo.toml"@,
        0 <= from,
    ensures
        nearest_root(a, cwd, marker, from) == nearest_root(b, cwd, marker, from),
        nearest_root(a, cwd, marker, from) matches Some(root) ==> agree(
            a,
            b,
            level_places(a, root),
        ),
    decreases cwd.parts.len() + 1 - from,
{
    broadcast use lemma_agree_add;

    if from <= cwd.parts.len() {
        let d = path_ancestor(cwd, from);
        assert(agree(a, b, level_places(a, d)));
        lemma_project_agrees(a, b, d);
        assert(is_home(a, d) == is_home(b, d));
        lemma_root_agrees(a, b, cwd, marker, from + 1);
    }
}

proof fn lemma_workspace_agrees(a: HostView, b: HostView, cwd: PathView, from: int)
    requires
        alike(a, b),
        home(a) == home(b),
        levels_agree(a, b, cwd),
        0 <= from,
    ensures
        nearest_workspace(a, cwd, from) == nearest_workspace(b, cwd, from),
        nearest_workspace(a, cwd, from) matches Some(root) ==> agree(a, b, level_places(a, root)),
    decreases cwd.parts.len() + 1 - from,
{
    broadcast use lemma_agree_add;

    if from <= cwd.parts.len() {
        let d = path_ancestor(cwd, from);
        assert(agree(a, b, level_places(a, d)));
        lemma_project_agrees(a, b, d);
        assert(is_home(a, d) == is_home(b, d));
        assert(manifest_member(a, d, "workspaces"@) == manifest_member(b, d, "workspaces"@));
        lemma_workspace_agrees(a, b, cwd, from + 1);
    }
}

proof fn lemma_node_agrees(a: HostView, b: HostView, path: PathView, workspace: bool)
    requires
        alike(a, b),
        agree(a, b, level_places(a, path)),
    ensures
        node_target(a, path, workspace) == node_target(b, path, workspace),
{
    broadcast use lemma_agree_add;

    lemma_project_agrees(a, b, path);
    let canonical = canonical_or(a, path);
    assert(canonical == canonical_or(b, path));
    lemma_project_agrees(a, b, canonical);
    let manager = manifest_member(a, canonical, "packageManager"@);
    assert(manager == manifest_member(b, canonical, "packageManager"@));
    assert(manager_hint(a, canonical, manager) == manager_hint(b, canonical, manager));
}

// ---------------------------------------------------------------------------
// Python environments
// ---------------------------------------------------------------------------

proof fn lemma_environment_agrees(a: HostView, b: HostView, path: PathView)
    requires
        alike(a, b),
        agree(a, b, environment_places(a.platform, path)),
    ensures
        interpreter(a, path) == interpreter(b, path),
        environment_at(a, path) == environment_at(b, path),
        agree_at(a, b, path),
{
    let list = environment_places(a.platform, path);
    assert(agree_at(a, b, list[0]));
    assert(agree_at(a, b, list[1]));
    assert(agree_at(a, b, list[2]));
    assert(agree_at(a, b, list[3]));
    assert(agree_at(a, b, list[4]));
}

proof fn lemma_python_agrees(
    a: HostView,
    b: HostView,
    so_far: PythonTargets,
    path: PathView,
    environment: PythonEnvironment,
    exists: bool,
)
    requires
        agree_at(a, b, path),
        !exists ==> agree(a, b, ancestors(path)),
    ensures
        with_python(a, so_far, path, environment, exists) == with_python(
            b,
            so_far,
            path,
            environment,
            exists,
        ),
{
    if !exists {
        lemma_creation_agrees(a, b, path);
    }
}

proof fn lemma_configured_agrees(
    a: HostView,
    b: HostView,
    so_far: PythonTargets,
    cwd: PathView,
    names: Seq<Seq<char>>,
)
    requires
        alike(a, b),
        agree(a, b, variables_places(a, cwd, a.env)),
    ensures
        with_all_configured(a, so_far, cwd, names) == with_all_configured(b, so_far, cwd, names),
    decreases names.len(),
{
    broadcast use lemma_agree_add;

    if names.len() > 0 {
        lemma_configured_agrees(a, b, so_far, cwd, names.drop_last());
        let (before, _) = with_all_configured(a, so_far, cwd, names.drop_last());
        let name = names.last();
        lemma_variable_agrees(a, b, cwd, name);
        match configured_path(a, name, cwd) {
            Some(path) => {
                lemma_environment_agrees(a, b, path);
                match environment_at(a, path) {
                    Some(environment) => {
                        lemma_python_agrees(a, b, before, path, environment, true);
                    },
                    None => {
                        lemma_python_agrees(a, b, before, path, PythonEnvironment::Venv, false);
                    },
                }
                assert(with_configured(a, before, name, path) == with_configured(
                    b,
                    before,
                    name,
                    path,
                ));
            },
            None => {},
        }
    }
}

proof fn lemma_usual_agrees(
    a: HostView,
    b: HostView,
    so_far: PythonTargets,
    base: PathView,
    names: Seq<Seq<char>>,
)
    requires
        alike(a, b),
        forall|i: int|
            0 <= i < names.len() ==> agree(
                a,
                b,
                environment_places(a.platform, path_child(base, #[trigger] names[i])),
            ),
    ensures
        with_usual(a, so_far, base, names) == with_usual(b, so_far, base, names),
    decreases names.len(),
{
    if names.len() > 0 {
        let rest = names.drop_last();
        assert forall|i: int| 0 <= i < rest.len() implies agree(
            a,
            b,
            environment_places(a.platform, path_child(base, #[trigger] rest[i])),
        ) by {
            assert(rest[i] == names[i]);
        }
        lemma_usual_agrees(a, b, so_far, base, rest);
        let before = with_usual(a, so_far, base, rest);
        assert(names[names.len() - 1] == names.last());
        let path = path_child(base, names.last());
        lemma_environment_agrees(a, b, path);
        match environment_at(a, path) {
            Some(environment) => {
                lemma_python_agrees(a, b, before, path, environment, true);
            },
            None => {},
        }
    }
}

proof fn lemma_environments_agree(
    a: HostView,
    b: HostView,
    targets: Seq<TargetView>,
    cwd: PathView,
    base: PathView,
)
    requires
        alike(a, b),
        agree(a, b, variables_places(a, cwd, a.env)),
        agree(a, b, level_places(a, base)),
    ensures
        with_environments(a, targets, cwd, base) == with_environments(b, targets, cwd, base),
{
    broadcast use lemma_agree_add;

    lemma_project_agrees(a, b, base);
    let none = PythonTargets { targets, seen: Seq::empty() };
    lemma_configured_agrees(a, b, none, cwd, python_variables());
    let (configured, _) = with_all_configured(a, none, cwd, python_variables());
    lemma_usual_agrees(a, b, configured, base, python_directories());
    let usual = with_usual(a, configured, base, python_directories());
    let default_venv = path_child(base, ".venv"@);
    lemma_creation_agrees(a, b, default_venv);
    lemma_python_agrees(a, b, usual, default_venv, PythonEnvironment::Venv, false);
}

// ---------------------------------------------------------------------------
// The context
// ---------------------------------------------------------------------------

proof fn lemma_user_root_agrees(
    a: HostView,
    b: HostView,
    targets: Seq<TargetView>,
    cwd: PathView,
)
    requires
        alike(a, b),
        home(a) == home(b),
        agree(a, b, variables_places(a, cwd, a.env)),
        agree(a, b, home_places(a, cwd)),
    ensures
        with_user_root(a, targets, cwd) == with_user_root(b, targets, cwd),
{
    broadcast use lemma_agree_add;

    lemma_variable_agrees(a, b, cwd, "CARGO_INSTALL_ROOT"@);
    lemma_variable_agrees(a, b, cwd, "CARGO_HOME"@);
    let install_root = configured_path(a, "CARGO_INSTALL_ROOT"@, cwd);
    let cargo_home = configured_path(a, "CARGO_HOME"@, cwd);
    if install_root is Some || cargo_home is Some || home(a) is Some {
        let path = if install_root is Some {
            path_in(cwd, install_root->0)
        } else if cargo_home is Some {
            path_in(cwd, cargo_home->0)
        } else {
            path_in(cwd, path_child(home(a)->0, ".cargo"@))
        };
        let source = if install_root is Some {
            "CARGO_INSTALL_ROOT"@
        } else if cargo_home is Some {
            "CARGO_HOME"@
        } else {
            "HOME"@
        };
        assert(agree(a, b, root_places(a, path)));
        lemma_creation_agrees(a, b, path);
        match creation_path(a, path) {
            Ok(found) => {
                assert(agree(a, b, creation_places(a, found)));
                lemma_with_cargo_agrees(
                    a,
                    b,
                    targets,
                    found,
                    "Cargo install root ("@ + source + ")"@,
                );
            },
            Err(_) => {},
        }
    }
}

/// Machines that are set up alike and agree on what is surveyed around a directory
/// yield the same context there: nothing else is asked for.
pub proof fn law_context_rests_on_the_survey(a: HostView, b: HostView, cwd: PathView)
    requires
        alike(a, b),
        agree(a, b, context_places(a, cwd)),
    ensures
        context_of(a, cwd) == context_of(b, cwd),
        home(a) == home(b),
{
    broadcast use lemma_agree_add;

    lemma_home_agrees(a, b, cwd);
    assert forall|k: int| 0 <= k <= cwd.parts.len() implies agree(
        a,
        b,
        #[trigger] level_places(a, path_ancestor(cwd, k)),
    ) by {
        lemma_level_agrees(a, b, cwd, cwd.parts.len() + 1, k);
    }
    lemma_marked_agrees(a, b, cwd, manifest_names(), 0);
    lemma_marked_agrees(a, b, cwd, vcs_names(), 0);
    let roots = project_roots(a, cwd);
    assert(roots == project_roots(b, cwd));
    law_project_is_marked(a, cwd);
    let base = match roots.project {
        Some(root) => root,
        None => cwd,
    };
    assert(agree(a, b, level_places(a, base))) by {
        match roots.project {
            Some(root) => {
                let k = choose|k: int|
                    0 <= k <= cwd.parts.len() && root == #[trigger] path_ancestor(cwd, k);
                assert(agree(a, b, level_places(a, path_ancestor(cwd, k))));
            },
            None => {
                lemma_self_ancestor(cwd);
                assert(agree(a, b, level_places(a, path_ancestor(cwd, 0))));
            },
        }
    }
    let start = seq![system_target(), user_target()];
    lemma_user_root_agrees(a, b, start, cwd);
    let first = with_user_root(a, start, cwd);
    lemma_root_agrees(a, b, cwd, "Cargo.toml"@, 0);
    match nearest_root(a, cwd, "Cargo.toml"@, 0) {
        Some(project) => {
            lemma_with_cargo_agrees(
                a,
                b,
                first,
                path_child(path_child(project, ".mate"@), "cargo"@),
                "project Cargo install root"@,
            );
        },
        None => {},
    }
    let cargo = with_cargo_roots(a, start, cwd);
    assert(cargo == with_cargo_roots(b, start, cwd));
    lemma_root_agrees(a, b, cwd, "package.json"@, 0);
    lemma_workspace_agrees(a, b, cwd, 0);
    match (nearest_root(a, cwd, "package.json"@, 0), nearest_workspace(a, cwd, 0)) {
        (Some(nearest), Some(workspace)) => {
            lemma_node_agrees(a, b, nearest, false);
            lemma_node_agrees(a, b, workspace, true);
        },
        (Some(nearest), None) => {
            lemma_node_agrees(a, b, nearest, false);
        },
        _ => {},
    }
    let node = with_node_roots(a, cargo, cwd);
    assert(node == with_node_roots(b, cargo, cwd));
    lemma_environments_agree(a, b, node, cwd, base);
}

// ---------------------------------------------------------------------------
// Commands
// ---------------------------------------------------------------------------

/// Whether two machines agree on paths and on what these lead to.
pub open spec fn forms_agree(a: HostView, b: HostView, list: Seq<PathView>) -> bool {
    agree(a, b, list) && agree(a, b, canonical_forms(a, list))
}

proof fn lemma_forms_add(host: HostView, x: Seq<PathView>, y: Seq<PathView>)
    ensures
        canonical_forms(host, x + y) == canonical_forms(host, x) + canonical_forms(host, y),
    decreases y.len(),
{
    if y.len() == 0 {
        assert(x + y =~= x);
        assert(canonical_forms(host, x) + canonical_forms(host, y) =~= canonical_forms(host, x));
    } else {
        lemma_forms_add(host, x, y.drop_last());
        assert((x + y).drop_last() =~= x + y.drop_last());
        assert((x + y).last() == y.last());
        assert(canonical_forms(host, x + y) =~= canonical_forms(host, x) + canonical_forms(
            host,
            y,
        ));
    }
}

proof fn lemma_forms_agree_add(a: HostView, b: HostView, x: Seq<PathView>, y: Seq<PathView>)
    requires
        forms_agree(a, b, x + y),
    ensures
        forms_agree(a, b, x),
        forms_agree(a, b, y),
{
    broadcast use lemma_agree_add;

    lemma_forms_add(a, x, y);
}

proof fn lemma_form_agrees(a: HostView, b: HostView, list: Seq<PathView>, i: int)
    requires
        forms_agree(a, b, list),
        0 <= i < list.len(),
    ensures
        agree_at(a, b, list[i]),
        a.canonical(list[i]) == b.canonical(list[i]),
        a.canonical(list[i]) matches Some(path) ==> agree_at(a, b, path),
    decreases list.len(),
{
    let rest = list.drop_last();
    let forms = canonical_forms(a, list);
    let before = canonical_forms(a, rest);
    assert(agree_at(a, b, list[i]));
    if i < rest.len() {
        assert(rest[i] == list[i]);
        assert forall|j: int| 0 <= j < rest.len() implies agree_at(a, b, #[trigger] rest[j]) by {
            assert(rest[j] == list[j]);
        }
        assert forall|j: int| 0 <= j < before.len() implies agree_at(a, b, #[trigger] before[j]) by {
            assert(before[j] == forms[j]);
        }
        lemma_form_agrees(a, b, rest, i);
    } else {
        match a.canonical(list[i]) {
            Some(path) => {
                assert(forms[before.len() as int] == path);
            },
            None => {},
        }
    }
}

proof fn lemma_trusted_agrees(a: HostView, b: HostView, places: Seq<PathView>)
    requires
        forms_agree(a, b, places),
    ensures
        first_trusted(a, places) == first_trusted(b, places),
    decreases places.len(),
{
    if places.len() > 0 {
        let rest = places.drop_first();
        lemma_form_agrees(a, b, places, 0);
        assert(places =~= seq![places[0]] + rest);
        lemma_forms_agree_add(a, b, seq![places[0]], rest);
        lemma_trusted_agrees(a, b, rest);
    }
}

/// The commands of the system that are looked for.
pub open spec fn is_system_command(name: Seq<char>) -> bool {
    name == "apt-cache"@ || name == "apt-get"@ || name == "pacman"@ || name == "sudo"@
}

/// The commands of users that are looked for.
pub open spec fn is_user_command(name: Seq<char>) -> bool {
    ||| name == "brew"@
    ||| name == "cargo"@
    ||| name == "node"@
    ||| name == "npm"@
    ||| name == "npx"@
    ||| name == "pip"@
    ||| name == "pip3"@
    ||| name == "uv"@
}

/// Machines that agree on what is surveyed trust the same commands of the system.
pub proof fn law_trust_rests_on_the_survey(a: HostView, b: HostView, name: Seq<char>)
    requires
        alike(a, b),
        agree(a, b, machine_places(a)),
        is_system_command(name),
    ensures
        first_trusted(a, system_places(a.platform, name)) == first_trusted(
            b,
            system_places(b.platform, name),
        ),
{
    broadcast use lemma_agree_add;

    let p = a.platform;
    let cache = system_places(p, "apt-cache"@);
    let get = system_places(p, "apt-get"@);
    let pacman = system_places(p, "pacman"@);
    let sudo = system_places(p, "sudo"@);
    let all = system_paths_of(p);
    assert(forms_agree(a, b, all));
    lemma_forms_agree_add(a, b, cache + get + pacman + sudo, shared_places(p));
    lemma_forms_agree_add(a, b, cache + get + pacman, sudo);
    lemma_forms_agree_add(a, b, cache + get, pacman);
    lemma_forms_agree_add(a, b, cache, get);
    lemma_trusted_agrees(a, b, system_places(p, name));
}

proof fn lemma_distinct_agrees(a: HostView, b: HostView, list: Seq<PathView>)
    requires
        agree(a, b, list),
    ensures
        distinct_canonical(a, list) == distinct_canonical(b, list),
    decreases list.len(),
{
    if list.len() > 0 {
        let rest = list.drop_last();
        assert forall|j: int| 0 <= j < rest.len() implies agree_at(a, b, #[trigger] rest[j]) by {
            assert(rest[j] == list[j]);
        }
        lemma_distinct_agrees(a, b, rest);
        assert(agree_at(a, b, list[list.len() - 1]));
    }
}

proof fn lemma_temporary_agrees(a: HostView, b: HostView)
    requires
        alike(a, b),
        agree(a, b, machine_places(a)),
    ensures
        temporary_places(a) == temporary_places(b),
        distinct_canonical(a, temporary_places(a)) == distinct_canonical(b, temporary_places(b)),
{
    broadcast use lemma_agree_add;

    let shared = shared_places(a.platform);
    assert(agree(a, b, shared));
    if a.platform == Platform::Unix {
        assert(agree_at(a, b, shared[0]));
        assert(agree_at(a, b, shared[1]));
        assert(agree_at(a, b, shared[2]));
    }
    lemma_distinct_agrees(a, b, temporary_places(a));
}

/// Whether a command lies in a directory of commands that two machines agree on.
spec fn command_agrees(a: HostView, b: HostView, name: Seq<char>, path: PathView) -> bool {
    &&& path == path_child(path_ancestor(path, 1), file_name(a.platform, name))
    &&& path.parts.len() > 0
    &&& forms_agree(a, b, command_places(a.platform, path_ancestor(path, 1)))
}

/// The position of a command among those that are looked for.
spec fn command_position(name: Seq<char>) -> int {
    if name == "brew"@ {
        1
    } else if name == "cargo"@ {
        2
    } else if name == "node"@ {
        3
    } else if name == "npm"@ {
        4
    } else if name == "npx"@ {
        5
    } else if name == "pip"@ {
        6
    } else if name == "pip3"@ {
        7
    } else {
        8
    }
}

proof fn lemma_command_listed(platform: Platform, directory: PathView, name: Seq<char>)
    requires
        is_user_command(name),
    ensures
        1 <= command_position(name) < command_places(platform, directory).len(),
        command_places(platform, directory)[command_position(name)] == path_child(
            directory,
            file_name(platform, name),
        ),
{
    let names = command_names(platform);
    let k = command_position(name);
    assert(names[k - 1] == file_name(platform, name));
    assert(entries(directory, names)[k - 1] == path_child(directory, names[k - 1]));
}

proof fn lemma_launchers_agree(
    a: HostView,
    b: HostView,
    name: Seq<char>,
    directories: Seq<PathView>,
)
    requires
        alike(a, b),
        agree(a, b, directories_places(a, directories)),
        is_user_command(name),
    ensures
        launchers(a, name, directories) == launchers(b, name, directories),
        forall|i: int|
            0 <= i < launchers(a, name, directories).0.len() ==> command_agrees(
                a,
                b,
                name,
                #[trigger] launchers(a, name, directories).0[i],
            ),
    decreases directories.len(),
{
    broadcast use lemma_agree_add;

    if directories.len() > 0 {
        let rest = directories.drop_last();
        let last = directories.last();
        lemma_launchers_agree(a, b, name, rest);
        let before = launchers(a, name, rest);
        let after = launchers(a, name, directories);
        let named = named_directory(a, last);
        assert(agree(a, b, named));
        if named.len() > 0 {
            assert(agree_at(a, b, named[0]));
        }
        assert(launch_directory(a, last) == launch_directory(b, last));
        match launch_directory(a, last) {
            Some(directory) => {
                let candidate = path_child(directory, file_name(a.platform, name));
                let list = command_places(a.platform, directory);
                assert(forms_agree(a, b, list));
                lemma_command_listed(a.platform, directory, name);
                lemma_form_agrees(a, b, list, command_position(name));
                assert(path_ancestor(candidate, 1) =~= directory);
                assert(command_agrees(a, b, name, candidate));
            },
            None => {},
        }
        assert forall|i: int| 0 <= i < after.0.len() implies command_agrees(
            a,
            b,
            name,
            #[trigger] after.0[i],
        ) by {
            if i < before.0.len() {
                assert(after.0[i] == before.0[i]);
            }
        }
    }
}

proof fn lemma_safe_agrees(
    a: HostView,
    b: HostView,
    name: Seq<char>,
    paths: Seq<PathView>,
    project_root: Option<PathView>,
)
    requires
        alike(a, b),
        agree(a, b, machine_places(a)),
        is_user_command(name),
        forall|i: int|
            0 <= i < paths.len() ==> command_agrees(a, b, name, #[trigger] paths[i]),
    ensures
        safe_executables(a, paths, project_root) == safe_executables(b, paths, project_root),
        forall|i: int|
            0 <= i < safe_executables(a, paths, project_root).len() ==> command_agrees(
                a,
                b,
                name,
                #[trigger] safe_executables(a, paths, project_root)[i],
            ),
    decreases paths.len(),
{
    if paths.len() > 0 {
        let rest = paths.drop_last();
        let last = paths.last();
        assert forall|i: int| 0 <= i < rest.len() implies command_agrees(
            a,
            b,
            name,
            #[trigger] rest[i],
        ) by {
            assert(rest[i] == paths[i]);
        }
        lemma_safe_agrees(a, b, name, rest, project_root);
        assert(command_agrees(a, b, name, paths[paths.len() - 1]));
        lemma_temporary_agrees(a, b);
        let directory = path_ancestor(last, 1);
        lemma_command_listed(a.platform, directory, name);
        lemma_form_agrees(
            a,
            b,
            command_places(a.platform, directory),
            command_position(name),
        );
        let before = safe_executables(a, rest, project_root);
        let after = safe_executables(a, paths, project_root);
        assert forall|i: int| 0 <= i < after.len() implies command_agrees(
            a,
            b,
            name,
            #[trigger] after[i],
        ) by {
            if i < before.len() {
                assert(after[i] == before[i]);
            }
        }
    }
}

proof fn lemma_user_commands_agree(
    a: HostView,
    b: HostView,
    name: Seq<char>,
    project_root: Option<PathView>,
)
    requires
        alike(a, b),
        agree(a, b, machine_places(a)),
        is_user_command(name),
    ensures
        user_commands(a, name, project_root) == user_commands(b, name, project_root),
        forall|i: int|
            0 <= i < user_commands(a, name, project_root).len() ==> command_agrees(
                a,
                b,
                name,
                #[trigger] user_commands(a, name, project_root)[i],
            ),
{
    broadcast use lemma_agree_add;

    lemma_launchers_agree(a, b, name, a.search_path);
    lemma_safe_agrees(a, b, name, launchers(a, name, a.search_path).0, project_root);
}

/// Machines that agree on what is surveyed hold the same commands of users for
/// package managers.
pub proof fn law_commands_rest_on_the_survey(
    a: HostView,
    b: HostView,
    name: Seq<char>,
    project_root: Option<PathView>,
)
    requires
        alike(a, b),
        agree(a, b, machine_places(a)),
        is_user_command(name),
    ensures
        user_commands(a, name, project_root) == user_commands(b, name, project_root),
{
    lemma_user_commands_agree(a, b, name, project_root);
}

proof fn lemma_scripts_agree(
    a: HostView,
    b: HostView,
    programs: Seq<PathView>,
    script: Seq<char>,
)
    requires
        alike(a, b),
        script == "npm-cli.js"@ || script == "npx-cli.js"@,
        forall|i: int|
            0 <= i < programs.len() ==> command_agrees(a, b, "node"@, #[trigger] programs[i]),
    ensures
        script_launchers(a, programs, script) == script_launchers(b, programs, script),
    decreases programs.len(),
{
    if programs.len() > 0 {
        let rest = programs.drop_last();
        assert forall|i: int| 0 <= i < rest.len() implies command_agrees(
            a,
            b,
            "node"@,
            #[trigger] rest[i],
        ) by {
            assert(rest[i] == programs[i]);
        }
        lemma_scripts_agree(a, b, rest, script);
        assert(command_agrees(a, b, "node"@, programs[programs.len() - 1]));
        let directory = path_ancestor(programs.last(), 1);
        let list = command_places(a.platform, directory);
        let n = command_names(a.platform).len() as int;
        let k: int = if script == "npm-cli.js"@ {
            n + 1
        } else {
            n + 2
        };
        assert(list[k] == script_path(directory, script));
        lemma_form_agrees(a, b, list, k);
    }
}

proof fn lemma_node_launchers_agree(
    a: HostView,
    b: HostView,
    command: Seq<char>,
    script: Seq<char>,
    context: ContextView,
)
    requires
        alike(a, b),
        agree(a, b, machine_places(a)),
        command == "npm"@ || command == "npx"@,
        script == "npm-cli.js"@ || script == "npx-cli.js"@,
    ensures
        node_launchers(a, command, script, context) == node_launchers(b, command, script, context),
{
    lemma_user_commands_agree(a, b, "node"@, context.workspace_root);
    lemma_user_commands_agree(a, b, command, context.workspace_root);
    lemma_scripts_agree(
        a,
        b,
        user_commands(a, "node"@, context.workspace_root),
        script,
    );
}

/// Machines that agree on what is surveyed are asked the same of a manager, and
/// show the same instances of it. What npm prints as its global prefix has to be
/// looked at besides.
pub proof fn law_discovery_rests_on_the_survey(
    a: HostView,
    b: HostView,
    cwd: PathView,
    adapter: Adapter,
    context: ContextView,
    replies: Seq<Option<OutputView>>,
)
    requires
        alike(a, b),
        agree(a, b, survey(a, cwd)),
        replies.len() == adapter.probes(a, context).len(),
        adapter is Npm ==> forall|i: int|
            0 <= i < replies.len() ==> (printed_prefix(a, context, #[trigger] replies[i]) matches Some(
                path,
            ) ==> agree(a, b, creation_places(a, path))),
    ensures
        adapter.probes(a, context) == adapter.probes(b, context),
        adapter.instances(a, context, replies) == adapter.instances(b, context, replies),
{
    broadcast use lemma_agree_add;

    law_context_rests_on_the_survey(a, b, cwd);
    match adapter {
        Adapter::Apt(_) => {
            law_trust_rests_on_the_survey(a, b, "apt-get"@);
        },
        Adapter::Pacman(_) => {
            law_trust_rests_on_the_survey(a, b, "pacman"@);
        },
        Adapter::Brew(_) => {
            lemma_user_commands_agree(a, b, "brew"@, context.workspace_root);
        },
        Adapter::Cargo(_) => {
            lemma_user_commands_agree(a, b, "cargo"@, context.workspace_root);
        },
        Adapter::Pip(_) => {
            lemma_user_commands_agree(a, b, "pip"@, context.workspace_root);
            lemma_user_commands_agree(a, b, "pip3"@, context.workspace_root);
        },
        Adapter::Uv(_) => {
            lemma_user_commands_agree(a, b, "uv"@, context.workspace_root);
        },
        Adapter::Npm(_) => {
            lemma_node_launchers_agree(a, b, "npm"@, "npm-cli.js"@, context);
            let list = node_launchers(a, "npm"@, "npm-cli.js"@, context);
            lemma_npm_probes_agree(a, b, list);
            lemma_npm_probes(a, list);
            assert forall|i: int| 0 <= i < list.len() implies prefix_scope(
                a,
                context,
                #[trigger] replies[2 * i + 1],
            ) == prefix_scope(b, context, replies[2 * i + 1]) by {
                match printed_prefix(a, context, replies[2 * i + 1]) {
                    Some(path) => {
                        lemma_creation_agrees(a, b, path);
                    },
                    None => {},
                }
            }
            assert(npm_instances(a, context, list, replies) =~= npm_instances(
                b,
                context,
                list,
                replies,
            ));
        },
        Adapter::Npx(_) => {
            lemma_node_launchers_agree(a, b, "npx"@, "npx-cli.js"@, context);
        },
    }
}

proof fn lemma_npm_probes_agree(a: HostView, b: HostView, list: Seq<LauncherView>)
    requires
        alike(a, b),
    ensures
        npm_probes(a, list) == npm_probes(b, list),
    decreases list.len(),
{
    if list.len() > 0 {
        lemma_npm_probes_agree(a, b, list.drop_last());
    }
}

proof fn lemma_target_agrees(
    a: HostView,
    b: HostView,
    platform: Platform,
    targets: Seq<TargetView>,
    i: int,
)
    requires
        agree(a, b, target_places(platform, targets)),
        0 <= i < targets.len(),
    ensures
        targets[i].path matches Some(path) ==> agree(a, b, environment_places(platform, path)),
    decreases targets.len(),
{
    broadcast use lemma_agree_add;

    if i < targets.len() - 1 {
        lemma_target_agrees(a, b, platform, targets.drop_last(), i);
        assert(targets.drop_last()[i] == targets[i]);
    }
}

/// Machines that agree on the global prefix that an instance is bound to offer the
/// same targets for it.
pub proof fn law_targets_rest_on_the_survey(
    a: HostView,
    b: HostView,
    adapter: Adapter,
    instance: InstanceView,
    context: ContextView,
)
    requires
        instance.scope matches ScopeView::NodeGlobal(prefix) ==> agree_at(a, b, prefix),
    ensures
        adapter.targets(a, instance, context) == adapter.targets(b, instance, context),
{
}

/// Machines that agree on what is surveyed lead to the same searches and, for the
/// targets that were found, to the same plans.
pub proof fn law_plans_rest_on_the_survey(
    a: HostView,
    b: HostView,
    cwd: PathView,
    adapter: Adapter,
    instance: InstanceView,
    query: Seq<char>,
    packages: Seq<Seq<char>>,
    target: TargetView,
    context: ContextView,
)
    requires
        alike(a, b),
        agree(a, b, survey(a, cwd)),
        target.kind == TargetKind::PythonVenv ==> context_of(a, cwd).targets.contains(target),
    ensures
        adapter.asks(a, instance, query) == adapter.asks(b, instance, query),
        adapter.plans(a, instance, packages, target, context) == adapter.plans(
            b,
            instance,
            packages,
            target,
            context,
        ),
{
    broadcast use lemma_agree_add;

    law_context_rests_on_the_survey(a, b, cwd);
    law_trust_rests_on_the_survey(a, b, "apt-cache"@);
    if target.kind == TargetKind::PythonVenv {
        let all = context_of(a, cwd).targets;
        let i = choose|i: int| 0 <= i < all.len() && all[i] == target;
        lemma_target_agrees(a, b, a.platform, all, i);
        match target.path {
            Some(path) => {
                lemma_environment_agrees(a, b, path);
            },
            None => {},
        }
    }
}

} // verus!
