//! uv.

use vstd::prelude::*;

use crate::adapters::lang::pypi::canonical_name;
use crate::adapters::{
    make_instances, ManagerAdapter, of_kinds, plain_instances, probe_versions, query_verdict,
    SearchReply, SearchReplyView, SearchRequest, SearchRequestView, targets_of_kinds,
    version_probes,
};
use crate::adapters::lang::pip::{
    distributions, make_distributions, make_pypi_request, pypi_request,
};
use crate::context::{
    ContextView, interpreter, other_interpreter, ProjectContext, python_environment_python,
    venv_interpreter, venv_python,
};
use crate::error::{Error, ErrorKind, ErrorView, failure};
use crate::host::{Host, HostView};
use crate::model::{
    Candidate, CandidateView, CommandSpec, CommandView, EnvMap, InstanceView, ManagerInstance,
    ManagerKind, Target, TargetKind, TargetView,
};
use crate::path::{FilePath, path_text, PathView};
use crate::process::{
    CaptureRequest, CapturedOutput, find_user_commands, OutputView, RequestView, user_commands,
};
use crate::text::{cat2, cat3, decimal, decimal_text, extend_texts, list_of, option_view, views};

verus! {

broadcast use crate::text::group_views;

#[derive(Debug, Clone, Copy, PartialEq, Eq, Structural)]
pub struct UvAdapter;

/// The variables that could change what a Python tool does.
pub open spec fn python_removals() -> Seq<Seq<char>> {
    seq!["UV_"@, "PIP_"@, "PYTHON"@, "VIRTUAL_ENV"@]
}

fn python_env_removals() -> (r: Vec<String>)
    ensures
        views(r@) == python_removals(),
{
    let r = list_of(&["UV_", "PIP_", "PYTHON", "VIRTUAL_ENV"]);
    assert(views(r@) =~= python_removals());
    r
}

/// A step of uv, which is run in the current directory.
pub open spec fn uv_step(
    instance: InstanceView,
    context: ContextView,
    label: Seq<char>,
    args: Seq<Seq<char>>,
    guard: Option<PathView>,
) -> CommandView {
    CommandView {
        label,
        program: instance.executable,
        args,
        cwd: Some(context.cwd),
        env: Seq::empty(),
        env_remove_prefixes: python_removals(),
        must_not_exist: guard,
        requires_admin: false,
    }
}

fn make_step(
    instance: &ManagerInstance,
    context: &ProjectContext,
    label: String,
    args: Vec<String>,
    guard: Option<FilePath>,
) -> (r: CommandSpec)
    ensures
        r@ == uv_step(instance@, context@, label@, views(args@), option_view(guard)),
{
    CommandSpec {
        label,
        program: instance.executable.clone(),
        args,
        cwd: Some(context.cwd.clone()),
        env: EnvMap::new(),
        env_remove_prefixes: python_env_removals(),
        must_not_exist: guard,
        requires_admin: false,
    }
}

/// The step that installs one tool for the user.
pub open spec fn tool_step(instance: InstanceView, context: ContextView, package: Seq<char>) -> CommandView {
    uv_step(
        instance,
        context,
        "uv tool install "@ + package,
        seq![
            "tool"@,
            "install"@,
            "--no-config"@,
            "--default-index"@,
            "https://pypi.org/simple"@,
            package,
        ],
        None,
    )
}

/// One step for each tool.
pub open spec fn tool_steps(
    instance: InstanceView,
    context: ContextView,
    packages: Seq<Seq<char>>,
) -> Seq<CommandView> {
    packages.map_values(|package: Seq<char>| tool_step(instance, context, package))
}

fn make_tool_steps(instance: &ManagerInstance, context: &ProjectContext, packages: &Vec<String>) -> (r:
    Vec<CommandSpec>)
    ensures
        views(r@) == tool_steps(instance@, context@, views(packages@)),
{
    let ghost all = tool_steps(instance@, context@, views(packages@));
    let mut r: Vec<CommandSpec> = Vec::new();
    let n: usize = packages.len();
    assert(views(r@) =~= all.take(0));
    for i in 0..n
        invariant
            n == packages@.len(),
            all == tool_steps(instance@, context@, views(packages@)),
            views(r@) == all.take(i as int),
    {
        let package = packages[i].as_str();
        let args = list_of(
            &[
                "tool",
                "install",
                "--no-config",
                "--default-index",
                "https://pypi.org/simple",
                package,
            ],
        );
        assert(views(args@) =~= seq![
            "tool"@,
            "install"@,
            "--no-config"@,
            "--default-index"@,
            "https://pypi.org/simple"@,
            package@,
        ]);
        let step = make_step(instance, context, cat2("uv tool install ", package), args, None);
        r.push(step);
        proof {
            assert(all[i as int] == step@);
            assert(views(r@) =~= all.take(i + 1));
        }
    }
    assert(all.take(n as int) =~= all);
    r
}

/// The step that creates an environment, which must not exist by then.
pub open spec fn creation_step(instance: InstanceView, context: ContextView, path: PathView) -> CommandView {
    uv_step(
        instance,
        context,
        "create Python venv "@ + path_text(path),
        seq!["venv"@, "--no-config"@, path_text(path)],
        Some(path),
    )
}

/// The interpreter that packages are installed for: the one that the environment
/// has, or will have.
pub open spec fn target_interpreter(host: HostView, path: PathView) -> PathView {
    match interpreter(host, path) {
        Some(python) => python,
        None => venv_interpreter(host.platform, path),
    }
}

/// The step that installs packages into an environment.
pub open spec fn environment_step(
    host: HostView,
    instance: InstanceView,
    context: ContextView,
    path: PathView,
    packages: Seq<Seq<char>>,
) -> CommandView {
    uv_step(
        instance,
        context,
        "uv install "@ + decimal(packages.len()) + " package(s) into venv"@,
        seq![
            "pip"@,
            "install"@,
            "--no-config"@,
            "--default-index"@,
            "https://pypi.org/simple"@,
            "--python"@,
            path_text(target_interpreter(host, path)),
        ] + packages,
        None,
    )
}

fn make_creation_step(instance: &ManagerInstance, context: &ProjectContext, path: &FilePath) -> (r:
    CommandSpec)
    ensures
        r@ == creation_step(instance@, context@, path@),
{
    let text = path.text();
    let args = list_of(&["venv", "--no-config", text.as_str()]);
    assert(views(args@) =~= seq!["venv"@, "--no-config"@, path_text(path@)]);
    make_step(
        instance,
        context,
        cat2("create Python venv ", text.as_str()),
        args,
        Some(path.clone()),
    )
}

fn make_environment_step(
    host: &Host,
    instance: &ManagerInstance,
    context: &ProjectContext,
    path: &FilePath,
    packages: &Vec<String>,
) -> (r: CommandSpec)
    ensures
        r@ == environment_step(host@, instance@, context@, path@, views(packages@)),
{
    let python = match python_environment_python(host, path) {
        Some(python) => python,
        None => venv_python(host.platform, path),
    };
    let text = python.text();
    let mut args = list_of(
        &[
            "pip",
            "install",
            "--no-config",
            "--default-index",
            "https://pypi.org/simple",
            "--python",
            text.as_str(),
        ],
    );
    assert(views(args@) =~= seq![
        "pip"@,
        "install"@,
        "--no-config"@,
        "--default-index"@,
        "https://pypi.org/simple"@,
        "--python"@,
        path_text(target_interpreter(host@, path@)),
    ]);
    extend_texts(&mut args, packages);
    let label = cat3(
        "uv install ",
        decimal_text(packages.len()).as_str(),
        " package(s) into venv",
    );
    make_step(instance, context, label, args, None)
}

impl ManagerAdapter for UvAdapter {
    open spec fn manager(&self) -> ManagerKind {
        ManagerKind::Uv
    }

    fn kind(&self) -> (r: ManagerKind) {
        ManagerKind::Uv
    }

    open spec fn searchable(&self) -> bool {
        true
    }

    fn supports_search(&self) -> (r: bool) {
        true
    }

    open spec fn installable(&self) -> bool {
        true
    }

    fn supports_install(&self) -> (r: bool) {
        true
    }

    open spec fn fuzzy(&self) -> bool {
        false
    }

    fn supports_fuzzy_fallback(&self) -> (r: bool) {
        false
    }

    open spec fn probes(&self, host: HostView, context: ContextView) -> Seq<RequestView> {
        version_probes(
            user_commands(host, "uv"@, context.workspace_root),
            Seq::empty(),
            Seq::empty(),
            None,
        )
    }

    fn discovery_requests(&self, host: &Host, context: &ProjectContext) -> (r: Vec<CaptureRequest>) {
        let found = find_user_commands(host, "uv", &context.workspace_root);
        probe_versions(&found, &Vec::new(), &Vec::new(), &None)
    }

    open spec fn instances(
        &self,
        host: HostView,
        context: ContextView,
        replies: Seq<Option<OutputView>>,
    ) -> Seq<InstanceView> {
        plain_instances(
            ManagerKind::Uv,
            user_commands(host, "uv"@, context.workspace_root),
            replies,
        )
    }

    fn discover(
        &self,
        host: &Host,
        context: &ProjectContext,
        replies: &Vec<Option<CapturedOutput>>,
    ) -> (r: Vec<ManagerInstance>) {
        let found = find_user_commands(host, "uv", &context.workspace_root);
        make_instances(ManagerKind::Uv, &found, replies)
    }

    open spec fn asks(&self, host: HostView, instance: InstanceView, query: Seq<char>) -> Result<
        SearchRequestView,
        ErrorView,
    > {
        pypi_request(query)
    }

    fn search_request(&self, host: &Host, instance: &ManagerInstance, query: &str) -> (r: Result<
        SearchRequest,
        Error,
    >) {
        make_pypi_request(query)
    }

    open spec fn finds(&self, instance: InstanceView, query: Seq<char>, reply: SearchReplyView) -> Result<
        Seq<CandidateView>,
        ErrorView,
    > {
        match reply {
            SearchReplyView::Pypi(package) => Ok(
                distributions(ManagerKind::Uv, 0, package, query, instance.id),
            ),
            _ => Ok(Seq::empty()),
        }
    }

    fn search(&self, instance: &ManagerInstance, query: &str, reply: &SearchReply) -> (r: Result<
        Vec<Candidate>,
        Error,
    >) {
        match reply {
            SearchReply::Pypi(package) => Ok(
                make_distributions(ManagerKind::Uv, 0, package, query, instance.id.as_str()),
            ),
            _ => Ok(Vec::new()),
        }
    }

    open spec fn targets(&self, host: HostView, instance: InstanceView, context: ContextView) -> Seq<
        TargetView,
    > {
        of_kinds(context.targets, TargetKind::User, TargetKind::PythonVenv)
    }

    fn compatible_targets(
        &self,
        host: &Host,
        instance: &ManagerInstance,
        context: &ProjectContext,
    ) -> (r: Vec<Target>) {
        targets_of_kinds(&context.targets, TargetKind::User, TargetKind::PythonVenv)
    }

    open spec fn plans(
        &self,
        host: HostView,
        instance: InstanceView,
        packages: Seq<Seq<char>>,
        target: TargetView,
        context: ContextView,
    ) -> Result<Seq<CommandView>, ErrorView> {
        match target.kind {
            TargetKind::User => Ok(tool_steps(instance, context, packages)),
            TargetKind::PythonVenv => match target.path {
                None => Err(
                    failure(ErrorKind::TargetWithoutPath, "Python venv target has no path"@),
                ),
                Some(path) => if target.exists {
                    Ok(seq![environment_step(host, instance, context, path, packages)])
                } else {
                    Ok(
                        seq![
                            creation_step(instance, context, path),
                            environment_step(host, instance, context, path, packages),
                        ],
                    )
                },
            },
            _ => Err(
                failure(
                    ErrorKind::UnsupportedTarget,
                    "uv is incompatible with target "@ + target.id,
                ),
            ),
        }
    }

    fn plan(
        &self,
        host: &Host,
        instance: &ManagerInstance,
        packages: &Vec<String>,
        target: &Target,
        context: &ProjectContext,
    ) -> (r: Result<Vec<CommandSpec>, Error>) {
        match target.kind {
            TargetKind::User => Ok(make_tool_steps(instance, context, packages)),
            TargetKind::PythonVenv => {
                let path = match &target.path {
                    Some(path) => path,
                    None => {
                        return Err(
                            Error::new(
                                ErrorKind::TargetWithoutPath,
                                "Python venv target has no path",
                            ),
                        );
                    },
                };
                let mut steps: Vec<CommandSpec> = Vec::new();
                let install = make_environment_step(host, instance, context, path, packages);
                if !target.exists {
                    let create = make_creation_step(instance, context, path);
                    steps.push(create);
                    steps.push(install);
                    assert(views(steps@) =~= seq![create@, install@]);
                } else {
                    steps.push(install);
                    assert(views(steps@) =~= seq![install@]);
                }
                Ok(steps)
            },
            _ => Err(
                Error::new(
                    ErrorKind::UnsupportedTarget,
                    cat2("uv is incompatible with target ", target.id.as_str()).as_str(),
                ),
            ),
        }
    }
}

/// An environment that does not exist is created first, by a step that is guarded
/// by its path; no other step of uv has a guard.
pub proof fn law_new_environment_is_created_first(
    host: HostView,
    instance: InstanceView,
    packages: Seq<Seq<char>>,
    target: TargetView,
    context: ContextView,
)
    ensures
        UvAdapter.plans(host, instance, packages, target, context) matches Ok(steps) ==> forall|
            i: int,
        |
            0 <= i < steps.len() ==> (#[trigger] steps[i]).must_not_exist == if i == 0
                && target.kind == TargetKind::PythonVenv && !target.exists {
                target.path
            } else {
                None
            },
{
}

/// What uv is told to install with: for the user `tool install` once for each package;
/// into an environment `pip install` once for all packages, with the interpreter of the
/// environment, and before that `venv` if the environment does not exist. Packages come
/// from PyPI; uv runs in the current directory, without elevation and without settings
/// of its own. Any other target is refused.
pub proof fn law_uv_installs(
    host: HostView,
    instance: InstanceView,
    packages: Seq<Seq<char>>,
    target: TargetView,
    context: ContextView,
)
    ensures
        ({
            let plan = UvAdapter.plans(host, instance, packages, target, context);
            &&& target.kind != TargetKind::User && target.kind != TargetKind::PythonVenv ==> (
            plan matches Err(e) && e.kind == ErrorKind::UnsupportedTarget)
            &&& target.kind == TargetKind::PythonVenv && target.path is None ==> (
            plan matches Err(e) && e.kind == ErrorKind::TargetWithoutPath)
            &&& target.kind == TargetKind::User ==> (plan matches Ok(steps) && {
                &&& steps.len() == packages.len()
                &&& forall|i: int|
                    0 <= i < steps.len() ==> (#[trigger] steps[i]).args == seq![
                        "tool"@,
                        "install"@,
                        "--no-config"@,
                        "--default-index"@,
                        "https://pypi.org/simple"@,
                        packages[i],
                    ] && steps[i].label == "uv tool install "@ + packages[i]
            })
            &&& target.kind == TargetKind::PythonVenv && target.path is Some ==> (
            plan matches Ok(steps) && {
                let path = target.path->0;
                let python = if host.is_file(venv_interpreter(host.platform, path)) {
                    venv_interpreter(host.platform, path)
                } else if host.is_file(other_interpreter(host.platform, path)) {
                    other_interpreter(host.platform, path)
                } else {
                    venv_interpreter(host.platform, path)
                };
                &&& steps.len() == if target.exists {
                    1nat
                } else {
                    2
                }
                &&& steps.last().args == seq![
                    "pip"@,
                    "install"@,
                    "--no-config"@,
                    "--default-index"@,
                    "https://pypi.org/simple"@,
                    "--python"@,
                    path_text(python),
                ] + packages
                &&& steps.last().label == "uv install "@ + decimal(packages.len())
                    + " package(s) into venv"@
                &&& !target.exists ==> steps[0].args == seq![
                    "venv"@,
                    "--no-config"@,
                    path_text(path),
                ] && steps[0].label == "create Python venv "@ + path_text(path)
            })
            &&& plan matches Ok(steps) ==> forall|i: int|
                0 <= i < steps.len() ==> {
                    &&& (#[trigger] steps[i]).program == instance.executable
                    &&& steps[i].cwd == Some(context.cwd)
                    &&& steps[i].env.len() == 0
                    &&& steps[i].env_remove_prefixes == seq![
                        "UV_"@,
                        "PIP_"@,
                        "PYTHON"@,
                        "VIRTUAL_ENV"@,
                    ]
                    &&& !steps[i].requires_admin
                }
        }),
{
}

/// A search of uv asks PyPI for the distribution that the query names, and finds that
/// distribution, if there is one.
pub proof fn law_uv_searches(
    host: HostView,
    instance: InstanceView,
    query: Seq<char>,
    reply: Option<crate::adapters::lang::pypi::PypiView>,
)
    ensures
        query_verdict(query) matches Err(e) ==> UvAdapter.asks(host, instance, query) == Err::<
            SearchRequestView,
            ErrorView,
        >(e),
        query_verdict(query) is Ok ==> match canonical_name(query) {
            Ok(name) => UvAdapter.asks(host, instance, query) == Ok::<SearchRequestView, ErrorView>(
                SearchRequestView::Pypi(name),
            ),
            Err(e) => UvAdapter.asks(host, instance, query) == Err::<SearchRequestView, ErrorView>(
                e,
            ),
        },
        UvAdapter.finds(instance, query, SearchReplyView::Pypi(reply)) matches Ok(found) && {
            &&& reply is None ==> found.len() == 0
            &&& reply matches Some(package) ==> {
                &&& found.len() == 1
                &&& found[0].package == package.name
                &&& found[0].match_name == package.name
                &&& found[0].version == Some(package.version)
                &&& found[0].description == package.summary
                &&& found[0].query == query
                &&& found[0].manager == ManagerKind::Uv
                &&& found[0].manager_instance_id == instance.id
                &&& found[0].verified
                &&& found[0].source == "https://pypi.org/simple"@
            }
        },
{
}

} // verus!
