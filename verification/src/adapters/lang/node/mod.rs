//! Node.

pub mod npm;
pub mod npx;

use vstd::prelude::*;

use crate::context::{ContextView, ProjectContext};
use crate::host::{Host, HostView};
use crate::model::{EnvVar, InstanceScope, InstanceView, ManagerInstance, ManagerKind, ScopeView};
use crate::path::{FilePath, path_ancestor, path_child, path_text, path_under, Platform, PathView};
use crate::platform::canonicalize;
use crate::process::{
    CaptureRequest, find_user_commands, probe_version_sanitized, RequestView, user_commands,
    version_request,
};
use crate::text::{cat3, clone_texts, extend_texts, list_of, views};

verus! {

broadcast use crate::text::group_views;

/// The variables that could change what a Node tool does.
pub open spec fn node_removals() -> Seq<Seq<char>> {
    seq!["NODE_OPTIONS"@, "NODE_PATH"@, "NPM_"@, "npm_"@, "INIT_CWD"@]
}

pub fn owned_env_removals() -> (r: Vec<String>)
    ensures
        views(r@) == node_removals(),
{
    let r = list_of(&["NODE_OPTIONS", "NODE_PATH", "NPM_", "npm_", "INIT_CWD"]);
    assert(views(r@) =~= node_removals());
    r
}

/// How a Node tool is started: a program, and the arguments that come first.
#[derive(Debug)]
pub struct NodeLauncher {
    pub program: FilePath,
    pub launcher_args: Vec<String>,
}

#[verifier::ext_equal]
pub struct LauncherView {
    pub program: PathView,
    pub launcher_args: Seq<Seq<char>>,
}

impl View for NodeLauncher {
    type V = LauncherView;

    open spec fn view(&self) -> LauncherView {
        LauncherView { program: self.program@, launcher_args: views(self.launcher_args@) }
    }
}

pub open spec fn launcher_id(launcher: LauncherView, manager: Seq<char>) -> Seq<char> {
    manager + ":"@ + path_text(launcher.program)
}

impl NodeLauncher {
    /// The arguments of the launcher, followed by `args`.
    pub fn prepend_launcher(&self, args: Vec<String>) -> (r: Vec<String>)
        ensures
            views(r@) == self@.launcher_args + views(args@),
    {
        let mut invocation = clone_texts(&self.launcher_args);
        extend_texts(&mut invocation, &args);
        invocation
    }

    pub fn instance_id(&self, manager: &str) -> (r: String)
        ensures
            r@ == launcher_id(self@, manager@),
    {
        cat3(manager, ":", self.program.text().as_str())
    }
}

/// Where Node on Windows keeps a script of npm.
pub open spec fn script_path(root: PathView, script: Seq<char>) -> PathView {
    path_child(
        path_child(path_child(path_child(root, "node_modules"@), "npm"@), "bin"@),
        script,
    )
}

/// The launcher that runs `script` with the given Node, if that has the script
/// below its own directory.
pub open spec fn script_launcher(host: HostView, program: PathView, script: Seq<char>) -> Option<
    LauncherView,
> {
    if program.parts.len() == 0 {
        None
    } else {
        let root = path_ancestor(program, 1);
        match host.canonical(script_path(root, script)) {
            Some(file) => if host.is_file(file) && path_under(file, root) {
                Some(LauncherView { program, launcher_args: seq![path_text(file)] })
            } else {
                None
            },
            None => None,
        }
    }
}

/// The launchers that run `script`, for those of `programs` that have it.
pub open spec fn script_launchers(host: HostView, programs: Seq<PathView>, script: Seq<char>) -> Seq<
    LauncherView,
>
    decreases programs.len(),
{
    if programs.len() == 0 {
        Seq::empty()
    } else {
        let rest = script_launchers(host, programs.drop_last(), script);
        match script_launcher(host, programs.last(), script) {
            Some(launcher) => rest.push(launcher),
            None => rest,
        }
    }
}

/// How a Node tool can be started: by its command, or on Windows by Node and the
/// script that the command would run.
pub open spec fn node_launchers(
    host: HostView,
    command: Seq<char>,
    script: Seq<char>,
    context: ContextView,
) -> Seq<LauncherView> {
    match host.platform {
        Platform::Windows => script_launchers(
            host,
            user_commands(host, "node"@, context.workspace_root),
            script,
        ),
        Platform::Unix => user_commands(host, command, context.workspace_root).map_values(
            |program: PathView| LauncherView { program, launcher_args: Seq::empty() },
        ),
    }
}

fn find_script_launcher(host: &Host, program: &FilePath, script: &str) -> (r: Option<NodeLauncher>)
    ensures
        crate::text::option_view(r) == script_launcher(host@, program@, script@),
{
    assert(program@.parts.len() == program.parts@.len());
    if program.parts.len() == 0 {
        return None;
    }
    let root = program.ancestor(1);
    let path = root.child("node_modules").child("npm").child("bin").child(script);
    match canonicalize(host, &path) {
        Some(file) => if host.is_file(&file) && file.starts_with(&root) {
            let text = file.text();
            let launcher_args = list_of(&[text.as_str()]);
            assert(views(launcher_args@) =~= seq![path_text(file@)]);
            Some(NodeLauncher { program: program.clone(), launcher_args })
        } else {
            None
        },
        None => None,
    }
}

pub fn discover_launchers(
    host: &Host,
    command: &str,
    windows_script: &str,
    context: &ProjectContext,
) -> (r: Vec<NodeLauncher>)
    ensures
        views(r@) == node_launchers(host@, command@, windows_script@, context@),
{
    let mut r: Vec<NodeLauncher> = Vec::new();
    match host.platform {
        Platform::Windows => {
            let programs = find_user_commands(host, "node", &context.workspace_root);
            let ghost all = views(programs@);
            let n: usize = programs.len();
            assert(views(r@) =~= script_launchers(host@, all.take(0), windows_script@));
            for i in 0..n
                invariant
                    n == programs@.len(),
                    all == views(programs@),
                    views(r@) == script_launchers(host@, all.take(i as int), windows_script@),
            {
                proof {
                    assert(all.take(i + 1).drop_last() =~= all.take(i as int));
                    assert(all.take(i + 1).last() == programs@[i as int]@);
                }
                if let Some(launcher) = find_script_launcher(host, &programs[i], windows_script) {
                    r.push(launcher);
                }
            }
            assert(all.take(n as int) =~= all);
        },
        Platform::Unix => {
            let programs = find_user_commands(host, command, &context.workspace_root);
            let ghost all = node_launchers(host@, command@, windows_script@, context@);
            let n: usize = programs.len();
            assert(views(r@) =~= all.take(0));
            for i in 0..n
                invariant
                    n == programs@.len(),
                    all == views(programs@).map_values(
                        |program: PathView| LauncherView { program, launcher_args: Seq::empty() },
                    ),
                    views(r@) == all.take(i as int),
            {
                let launcher = NodeLauncher {
                    program: programs[i].clone(),
                    launcher_args: Vec::new(),
                };
                r.push(launcher);
                proof {
                    assert(all[i as int] == launcher@);
                    assert(views(r@) =~= all.take(i + 1));
                }
            }
            assert(all.take(n as int) =~= all);
        },
    }
    r
}

/// The request for the version of a Node tool.
pub open spec fn launcher_version_request(launcher: LauncherView) -> RequestView {
    version_request(
        launcher.program,
        launcher.launcher_args + seq!["--version"@],
        node_removals(),
        seq![("NPM_CONFIG_COLOR"@, "false"@)],
        None,
    )
}

pub(crate) fn make_version_request(launcher: &NodeLauncher) -> (r: CaptureRequest)
    ensures
        r@ == launcher_version_request(launcher@),
{
    let args = list_of(&["--version"]);
    assert(views(args@) =~= seq!["--version"@]);
    let mut env: Vec<EnvVar> = Vec::new();
    env.push(EnvVar { name: "NPM_CONFIG_COLOR".to_owned(), value: "false".to_owned() });
    assert(views(env@) =~= seq![("NPM_CONFIG_COLOR"@, "false"@)]);
    probe_version_sanitized(
        &launcher.program,
        launcher.prepend_launcher(args),
        owned_env_removals(),
        env,
    )
}

/// The instance that a launcher starts.
pub open spec fn launcher_instance(
    kind: ManagerKind,
    launcher: LauncherView,
    version: Seq<char>,
    scope: ScopeView,
) -> InstanceView {
    InstanceView {
        id: launcher_id(launcher, crate::model::manager_name(kind)),
        kind,
        executable: launcher.program,
        launcher_args: launcher.launcher_args,
        version,
        scope,
    }
}

pub(crate) fn make_launcher_instance(
    kind: ManagerKind,
    launcher: &NodeLauncher,
    version: String,
    scope: InstanceScope,
) -> (r: ManagerInstance)
    ensures
        r@ == launcher_instance(kind, launcher@, version@, scope@),
{
    ManagerInstance {
        id: launcher.instance_id(kind.name()),
        kind,
        executable: launcher.program.clone(),
        launcher_args: clone_texts(&launcher.launcher_args),
        version,
        scope,
    }
}

/// Node tools are told of nothing that the environment holds for them, and of their
/// version they are asked with `--version` behind what starts them.
pub proof fn law_node_version_is_asked(launcher: LauncherView)
    ensures
        ({
            let request = launcher_version_request(launcher);
            &&& request.program == launcher.program
            &&& request.args == launcher.launcher_args + seq!["--version"@]
            &&& request.env_remove_prefixes == seq![
                "NODE_OPTIONS"@,
                "NODE_PATH"@,
                "NPM_"@,
                "npm_"@,
                "INIT_CWD"@,
            ]
            &&& request.env == seq![("NPM_CONFIG_COLOR"@, "false"@)]
            &&& request.cwd is None
            &&& request.seconds == 4
            &&& request.limit == 65_536
        }),
{
}

/// On Unix a Node tool is started by each of its commands that may be used. On Windows
/// it is started by each such Node that has the script of the tool below its own
/// directory, with that script as the first argument.
pub proof fn law_node_tools_are_started(
    host: HostView,
    command: Seq<char>,
    script: Seq<char>,
    context: ContextView,
    i: int,
)
    ensures
        host.platform == Platform::Unix ==> {
            let programs = user_commands(host, command, context.workspace_root);
            let found = node_launchers(host, command, script, context);
            &&& found.len() == programs.len()
            &&& 0 <= i < found.len() ==> found[i].program == programs[i]
                && found[i].launcher_args.len() == 0
        },
        host.platform == Platform::Windows ==> {
            let programs = user_commands(host, "node"@, context.workspace_root);
            let found = node_launchers(host, command, script, context);
            &&& 0 <= i < found.len() ==> programs.contains(found[i].program)
                && found[i].program.parts.len() > 0 && {
                let root = path_ancestor(found[i].program, 1);
                let place = path_child(
                    path_child(path_child(path_child(root, "node_modules"@), "npm"@), "bin"@),
                    script,
                );
                host.canonical(place) matches Some(file) && host.is_file(file) && path_under(
                    file,
                    root,
                ) && found[i].launcher_args == seq![path_text(file)]
            }
            &&& 0 <= i < programs.len() && programs[i].parts.len() > 0 && ({
                let root = path_ancestor(programs[i], 1);
                let place = path_child(
                    path_child(path_child(path_child(root, "node_modules"@), "npm"@), "bin"@),
                    script,
                );
                host.canonical(place) matches Some(file) && host.is_file(file) && path_under(
                    file,
                    root,
                )
            }) ==> exists|k: int| 0 <= k < found.len() && (#[trigger] found[k]).program == programs[i]
        },
{
    if host.platform == Platform::Windows {
        lemma_script_launchers(
            host,
            user_commands(host, "node"@, context.workspace_root),
            script,
            i,
        );
    }
}

proof fn lemma_script_launchers(
    host: HostView,
    programs: Seq<PathView>,
    script: Seq<char>,
    i: int,
)
    ensures
        ({
            let found = script_launchers(host, programs, script);
            &&& 0 <= i < found.len() ==> programs.contains(found[i].program) && script_launcher(
                host,
                found[i].program,
                script,
            ) == Some(found[i])
            &&& 0 <= i < programs.len() && script_launcher(host, programs[i], script) is Some
                ==> exists|k: int|
                0 <= k < found.len() && (#[trigger] found[k]).program == programs[i]
        }),
    decreases programs.len(),
{
    if programs.len() > 0 {
        let rest = programs.drop_last();
        let before = script_launchers(host, rest, script);
        let found = script_launchers(host, programs, script);
        lemma_script_launchers(host, rest, script, i);
        if 0 <= i < before.len() {
            assert(found[i] == before[i]);
            let k = choose|k: int| 0 <= k < rest.len() && rest[k] == before[i].program;
            assert(programs[k] == found[i].program);
        } else if i == before.len() && i < found.len() {
            assert(programs[programs.len() - 1] == found[i].program);
        }
        if 0 <= i < rest.len() && script_launcher(host, programs[i], script) is Some {
            assert(rest[i] == programs[i]);
            let k = choose|k: int|
                0 <= k < before.len() && (#[trigger] before[k]).program == rest[i];
            assert(found[k] == before[k]);
        } else if i == rest.len() && script_launcher(host, programs[i], script) is Some {
            assert(found[before.len() as int].program == programs[i]);
        }
    }
}

/// What is started is one instance: told by its manager and its program, and run by that
/// program with the arguments that start it.
pub proof fn law_launcher_is_an_instance(
    kind: ManagerKind,
    launcher: LauncherView,
    version: Seq<char>,
    scope: ScopeView,
)
    ensures
        ({
            let instance = launcher_instance(kind, launcher, version, scope);
            &&& instance.id == crate::model::manager_name(kind) + ":"@ + path_text(launcher.program)
            &&& instance.kind == kind
            &&& instance.executable == launcher.program
            &&& instance.launcher_args == launcher.launcher_args
            &&& instance.version == version
            &&& instance.scope == scope
        }),
{
}

} // verus!
