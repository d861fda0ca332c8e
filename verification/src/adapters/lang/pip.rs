//! pip.

use vstd::prelude::*;

use crate::adapters::{
    batch_label, label_batch, make_instance, ManagerAdapter, of_kind, plain_instance,
    probe_versions, query_verdict, replies_view, SearchReply, SearchReplyView, SearchRequest,
    SearchRequestView, targets_of_kind, validate_query, version_probes,
};
use crate::adapters::lang::pypi::{canonical_name, normalize_name, PypiPackage, PypiView};
use crate::context::{ContextView, ProjectContext};
use crate::error::{Error, ErrorKind, ErrorView, failure};
use crate::host::{Host, HostView};
use crate::model::{
    Candidate, CandidateView, CommandSpec, CommandView, env_of, EnvMap, InstanceScope,
    InstanceView, ManagerInstance, ManagerKind, MatchKind, ScopeView, Target, TargetKind,
    TargetView,
};
use crate::path::{
    FilePath, insert_paths, path_same, path_text, path_under, PathView, sorted_path_union,
};
use crate::platform::{null_device, null_file};
use crate::process::{
    CaptureRequest, CapturedOutput, find_user_commands, OutputView, RequestView, user_commands,
    version_line, version_text,
};
use crate::text::{cat4, clone_option, extend_texts, list_of, option_view, views};

verus! {

broadcast use crate::text::group_views;

#[derive(Debug, Clone, Copy, PartialEq, Eq, Structural)]
pub struct PipAdapter;

/// Where pip is found, under either of its names.
pub open spec fn executables(host: HostView, context: ContextView) -> Seq<PathView> {
    sorted_path_union(
        sorted_path_union(
            Seq::empty(),
            user_commands(host, "pip"@, context.workspace_root),
        ),
        user_commands(host, "pip3"@, context.workspace_root),
    )
}

fn find_executables(host: &Host, context: &ProjectContext) -> (r: Vec<FilePath>)
    ensures
        views(r@) == executables(host@, context@),
{
    let mut r: Vec<FilePath> = Vec::new();
    insert_paths(&mut r, &find_user_commands(host, "pip", &context.workspace_root));
    insert_paths(&mut r, &find_user_commands(host, "pip3", &context.workspace_root));
    r
}

/// Whether a target is an environment that `executable` lies in.
pub open spec fn owns(target: TargetView, executable: PathView) -> bool {
    target.kind == TargetKind::PythonVenv && target.exists && (target.path matches Some(venv)
        && path_under(executable, venv))
}

/// The environment that `executable` lies in, if it lies in one.
pub open spec fn owner(targets: Seq<TargetView>, executable: PathView) -> ScopeView
    decreases targets.len(),
{
    if targets.len() == 0 {
        ScopeView::Generic
    } else if owns(targets[0], executable) {
        ScopeView::PythonVenv(targets[0].path->0)
    } else {
        owner(targets.drop_first(), executable)
    }
}

fn find_owner(targets: &Vec<Target>, executable: &FilePath) -> (r: InstanceScope)
    ensures
        r@ == owner(views(targets@), executable@),
{
    let ghost all = views(targets@);
    let n: usize = targets.len();
    let mut i: usize = 0;
    assert(all.skip(0) =~= all);
    while i < n
        invariant
            n == targets@.len(),
            all == views(targets@),
            i <= n,
            owner(all, executable@) == owner(all.skip(i as int), executable@),
        decreases n - i,
    {
        assert(all.skip(i as int)[0] == targets@[i as int]@);
        assert(all.skip(i as int).drop_first() =~= all.skip(i + 1));
        if targets[i].kind == TargetKind::PythonVenv && targets[i].exists {
            if let Some(venv) = &targets[i].path {
                if executable.starts_with(venv) {
                    return InstanceScope::PythonVenv(venv.clone());
                }
            }
        }
        i = i + 1;
    }
    InstanceScope::Generic
}

/// One instance for each executable, bound to the environment that it lies in.
pub open spec fn pip_instances(
    paths: Seq<PathView>,
    targets: Seq<TargetView>,
    replies: Seq<Option<OutputView>>,
) -> Seq<InstanceView> {
    Seq::new(
        paths.len(),
        |i: int|
            plain_instance(
                ManagerKind::Pip,
                paths[i],
                version_line(replies[i]),
                owner(targets, paths[i]),
            ),
    )
}

/// The candidate for a distribution.
pub open spec fn distribution(
    kind: ManagerKind,
    score: u16,
    package: PypiView,
    query: Seq<char>,
    instance: Seq<char>,
) -> CandidateView {
    CandidateView {
        query,
        package: package.name,
        match_name: package.name,
        manager_instance_id: instance,
        manager: kind,
        source: "https://pypi.org/simple"@,
        version: Some(package.version),
        description: package.summary,
        score,
        match_kind: MatchKind::Unmatched,
        verified: true,
    }
}

/// The candidates for the distribution that was found, if one was.
pub open spec fn distributions(
    kind: ManagerKind,
    score: u16,
    package: Option<PypiView>,
    query: Seq<char>,
    instance: Seq<char>,
) -> Seq<CandidateView> {
    match package {
        Some(package) => seq![distribution(kind, score, package, query, instance)],
        None => Seq::empty(),
    }
}

pub(crate) fn make_distributions(
    kind: ManagerKind,
    score: u16,
    package: &Option<PypiPackage>,
    query: &str,
    instance_id: &str,
) -> (r: Vec<Candidate>)
    ensures
        views(r@) == distributions(kind, score, option_view(*package), query@, instance_id@),
{
    let mut r: Vec<Candidate> = Vec::new();
    if let Some(package) = package {
        let candidate = Candidate {
            query: query.to_owned(),
            package: package.name.clone(),
            match_name: package.name.clone(),
            manager_instance_id: instance_id.to_owned(),
            manager: kind,
            source: "https://pypi.org/simple".to_owned(),
            version: Some(package.version.clone()),
            description: clone_option(&package.summary),
            score,
            match_kind: MatchKind::Unmatched,
            verified: true,
        };
        r.push(candidate);
        assert(views(r@) =~= seq![candidate@]);
    }
    r
}

/// What to ask PyPI for.
pub open spec fn pypi_request(query: Seq<char>) -> Result<SearchRequestView, ErrorView> {
    match query_verdict(query) {
        Err(e) => Err(e),
        Ok(_) => match canonical_name(query) {
            Err(e) => Err(e),
            Ok(name) => Ok(SearchRequestView::Pypi(name)),
        },
    }
}

pub(crate) fn make_pypi_request(query: &str) -> (r: Result<SearchRequest, Error>)
    ensures
        crate::error::outcome(r) == pypi_request(query@),
{
    match validate_query(query) {
        Err(e) => Err(e),
        Ok(_) => match normalize_name(query) {
            Err(e) => Err(e),
            Ok(name) => Ok(SearchRequest::Pypi(name)),
        },
    }
}

/// Whether a target is the environment at `path`.
pub open spec fn is_environment(target: TargetView, path: PathView) -> bool {
    target.kind == TargetKind::PythonVenv && target.exists && (target.path matches Some(venv)
        && path_same(venv, path))
}

fn target_is_environment(target: &Target, path: &FilePath) -> (r: bool)
    ensures
        r == is_environment(target@, path@),
{
    target.kind == TargetKind::PythonVenv && target.exists && match &target.path {
        Some(venv) => venv.same(path),
        None => false,
    }
}

/// The targets that are the environment at `path`.
pub open spec fn environments(targets: Seq<TargetView>, path: PathView) -> Seq<TargetView> {
    targets.filter(|target: TargetView| is_environment(target, path))
}

fn find_environments(targets: &Vec<Target>, path: &FilePath) -> (r: Vec<Target>)
    ensures
        views(r@) == environments(views(targets@), path@),
{
    let ghost all = views(targets@);
    let ghost keep = |target: TargetView| is_environment(target, path@);
    let mut r: Vec<Target> = Vec::new();
    let n: usize = targets.len();
    proof {
        reveal(Seq::filter);
        assert(views(r@) =~= all.take(0).filter(keep));
    }
    for i in 0..n
        invariant
            n == targets@.len(),
            all == views(targets@),
            keep == (|target: TargetView| is_environment(target, path@)),
            views(r@) == all.take(i as int).filter(keep),
    {
        proof {
            reveal(Seq::filter);
            assert(all.take(i + 1).drop_last() =~= all.take(i as int));
            assert(all.take(i + 1).last() == targets@[i as int]@);
        }
        if target_is_environment(&targets[i], path) {
            r.push(targets[i].clone());
        }
    }
    assert(all.take(n as int) =~= all);
    r
}

/// Whether an instance installs for the user.
pub open spec fn installs_for_user(instance: InstanceView, target: TargetView) -> bool {
    instance.scope == ScopeView::Generic && target.kind == TargetKind::User
}

/// Whether an instance installs into the environment that it belongs to.
pub open spec fn installs_at_home(instance: InstanceView, target: TargetView) -> bool {
    instance.scope matches ScopeView::PythonVenv(path) && is_environment(target, path)
}

pub open spec fn base_args() -> Seq<Seq<char>> {
    seq![
        "--disable-pip-version-check"@,
        "install"@,
        "--index-url"@,
        "https://pypi.org/simple"@,
    ]
}

impl ManagerAdapter for PipAdapter {
    open spec fn manager(&self) -> ManagerKind {
        ManagerKind::Pip
    }

    fn kind(&self) -> (r: ManagerKind) {
        ManagerKind::Pip
    }

    open spec fn searchable(&self) -> bool {
        true
    }

    fn supports_search(&self) -> (r: bool) {
        true
    }

    open spec fn installable(&self) -> bool {
        true
    }

    fn supports_install(&self) -> (r: bool) {
        true
    }

    open spec fn fuzzy(&self) -> bool {
        false
    }

    fn supports_fuzzy_fallback(&self) -> (r: bool) {
        false
    }

    open spec fn probes(&self, host: HostView, context: ContextView) -> Seq<RequestView> {
        version_probes(executables(host, context), Seq::empty(), Seq::empty(), None)
    }

    fn discovery_requests(&self, host: &Host, context: &ProjectContext) -> (r: Vec<CaptureRequest>) {
        probe_versions(&find_executables(host, context), &Vec::new(), &Vec::new(), &None)
    }

    open spec fn instances(
        &self,
        host: HostView,
        context: ContextView,
        replies: Seq<Option<OutputView>>,
    ) -> Seq<InstanceView> {
        pip_instances(executables(host, context), context.targets, replies)
    }

    fn discover(
        &self,
        host: &Host,
        context: &ProjectContext,
        replies: &Vec<Option<CapturedOutput>>,
    ) -> (r: Vec<ManagerInstance>) {
        let paths = find_executables(host, context);
        let ghost all = pip_instances(views(paths@), context@.targets, replies_view(replies@));
        let mut r: Vec<ManagerInstance> = Vec::new();
        let n: usize = paths.len();
        assert(n == replies@.len());
        assert(views(r@) =~= all.take(0));
        for i in 0..n
            invariant
                n == paths@.len(),
                replies@.len() == n,
                all == pip_instances(views(paths@), context@.targets, replies_view(replies@)),
                views(r@) == all.take(i as int),
        {
            let version = version_text(&replies[i]);
            let scope = find_owner(&context.targets, &paths[i]);
            let instance = make_instance(ManagerKind::Pip, paths[i].clone(), version, scope);
            r.push(instance);
            proof {
                assert(replies_view(replies@)[i as int] == option_view(replies@[i as int]));
                assert(all[i as int] == instance@);
                assert(views(r@) =~= all.take(i + 1));
            }
        }
        assert(all.take(n as int) =~= all);
        r
    }

    open spec fn asks(&self, host: HostView, instance: InstanceView, query: Seq<char>) -> Result<
        SearchRequestView,
        ErrorView,
    > {
        pypi_request(query)
    }

    fn search_request(&self, host: &Host, instance: &ManagerInstance, query: &str) -> (r: Result<
        SearchRequest,
        Error,
    >) {
        make_pypi_request(query)
    }

    open spec fn finds(&self, instance: InstanceView, query: Seq<char>, reply: SearchReplyView) -> Result<
        Seq<CandidateView>,
        ErrorView,
    > {
        match reply {
            SearchReplyView::Pypi(package) => Ok(
                distributions(ManagerKind::Pip, 100, package, query, instance.id),
            ),
            _ => Ok(Seq::empty()),
        }
    }

    fn search(&self, instance: &ManagerInstance, query: &str, reply: &SearchReply) -> (r: Result<
        Vec<Candidate>,
        Error,
    >) {
        match reply {
            SearchReply::Pypi(package) => Ok(
                make_distributions(ManagerKind::Pip, 100, package, query, instance.id.as_str()),
            ),
            _ => Ok(Vec::new()),
        }
    }

    open spec fn targets(&self, host: HostView, instance: InstanceView, context: ContextView) -> Seq<
        TargetView,
    > {
        match instance.scope {
            ScopeView::PythonVenv(path) => environments(context.targets, path),
            ScopeView::Generic => of_kind(context.targets, TargetKind::User),
            ScopeView::NodeGlobal(_) => Seq::empty(),
        }
    }

    fn compatible_targets(
        &self,
        host: &Host,
        instance: &ManagerInstance,
        context: &ProjectContext,
    ) -> (r: Vec<Target>) {
        match &instance.scope {
            InstanceScope::PythonVenv(path) => find_environments(&context.targets, path),
            InstanceScope::Generic => targets_of_kind(&context.targets, TargetKind::User),
            InstanceScope::NodeGlobal(_) => Vec::new(),
        }
    }

    open spec fn plans(
        &self,
        host: HostView,
        instance: InstanceView,
        packages: Seq<Seq<char>>,
        target: TargetView,
        context: ContextView,
    ) -> Result<Seq<CommandView>, ErrorView> {
        if !installs_for_user(instance, target) && !installs_at_home(instance, target) {
            Err(
                failure(
                    ErrorKind::ForeignTarget,
                    "pip instance "@ + path_text(instance.executable)
                        + " is incompatible with target "@ + target.id,
                ),
            )
        } else {
            let args = if installs_for_user(instance, target) {
                base_args().push("--user"@)
            } else {
                base_args()
            };
            Ok(
                seq![
                    CommandView {
                        label: batch_label("pip install "@, packages.len()),
                        program: instance.executable,
                        args: args + packages,
                        cwd: None,
                        env: env_of(seq![("PIP_CONFIG_FILE"@, null_file(host.platform))]),
                        env_remove_prefixes: seq!["PIP_"@, "PYTHON"@, "VIRTUAL_ENV"@],
                        must_not_exist: None,
                        requires_admin: false,
                    },
                ],
            )
        }
    }

    fn plan(
        &self,
        host: &Host,
        instance: &ManagerInstance,
        packages: &Vec<String>,
        target: &Target,
        context: &ProjectContext,
    ) -> (r: Result<Vec<CommandSpec>, Error>) {
        let mut args = list_of(
            &[
                "--disable-pip-version-check",
                "install",
                "--index-url",
                "https://pypi.org/simple",
            ],
        );
        assert(views(args@) =~= base_args());
        let compatible = match &instance.scope {
            InstanceScope::Generic => {
                if target.kind == TargetKind::User {
                    args.push("--user".to_owned());
                    true
                } else {
                    false
                }
            },
            InstanceScope::PythonVenv(path) => target_is_environment(target, path),
            InstanceScope::NodeGlobal(_) => false,
        };
        if !compatible {
            return Err(
                Error::new(
                    ErrorKind::ForeignTarget,
                    cat4(
                        "pip instance ",
                        instance.executable.text().as_str(),
                        " is incompatible with target ",
                        target.id.as_str(),
                    ).as_str(),
                ),
            );
        }
        extend_texts(&mut args, packages);
        let prefixes = list_of(&["PIP_", "PYTHON", "VIRTUAL_ENV"]);
        assert(views(prefixes@) =~= seq!["PIP_"@, "PYTHON"@, "VIRTUAL_ENV"@]);
        proof {
            let pair = ("PIP_CONFIG_FILE"@, null_file(host@.platform));
            reveal_with_fuel(env_of, 2);
            assert(seq![pair].drop_last() =~= Seq::<(Seq<char>, Seq<char>)>::empty());
        }
        let step = CommandSpec {
            label: label_batch("pip install ", packages.len()),
            program: instance.executable.clone(),
            args,
            cwd: None,
            env: EnvMap::new().with("PIP_CONFIG_FILE", null_device(host.platform)),
            env_remove_prefixes: prefixes,
            must_not_exist: None,
            requires_admin: false,
        };
        let mut steps: Vec<CommandSpec> = Vec::new();
        steps.push(step);
        assert(views(steps@) =~= seq![step@]);
        Ok(steps)
    }
}

/// A plan of pip is one step that installs all packages from PyPI, without elevation
/// and without a guard: for the user, or into the environment that pip belongs to.
pub proof fn law_one_batched_step(
    host: HostView,
    instance: InstanceView,
    packages: Seq<Seq<char>>,
    target: TargetView,
    context: ContextView,
)
    ensures
        PipAdapter.plans(host, instance, packages, target, context) matches Ok(steps) ==> {
            let step = steps[0];
            let given = step.args.len() - packages.len();
            &&& steps.len() == 1
            &&& given >= 0
            &&& step.args.skip(given) == packages
            &&& step.args.take(given).contains("--index-url"@)
            &&& step.args.take(given).contains("https://pypi.org/simple"@)
            &&& step.args.take(given).contains("--user"@) <==> target.kind == TargetKind::User
            &&& !step.requires_admin
            &&& step.must_not_exist is None
        },
{
    match PipAdapter.plans(host, instance, packages, target, context) {
        Err(_) => {},
        Ok(steps) => {
            let args = if installs_for_user(instance, target) {
                base_args().push("--user"@)
            } else {
                base_args()
            };
            let given = steps[0].args.len() - packages.len();
            assert(steps[0].args.skip(given) =~= packages);
            assert(steps[0].args.take(given) =~= args);
            assert(args[2] == "--index-url"@);
            assert(args[3] == "https://pypi.org/simple"@);
            if installs_for_user(instance, target) {
                assert(args[4] == "--user"@);
            } else {
                reveal_strlit("--user");
                reveal_strlit("--disable-pip-version-check");
                reveal_strlit("install");
                reveal_strlit("--index-url");
                reveal_strlit("https://pypi.org/simple");
                assert("--user"@.len() != args[0].len());
                assert("--user"@.len() != args[1].len());
                assert("--user"@.len() != args[2].len());
                assert("--user"@.len() != args[3].len());
            }
        },
    }
}

/// What pip is told to install with: one step without elevation, in which pip gets
/// `install`, the index PyPI and the packages, and `--user` if it installs for the user.
/// It installs for the user if it belongs to no environment, and otherwise only into the
/// environment that it belongs to.
pub proof fn law_pip_installs(
    host: HostView,
    instance: InstanceView,
    packages: Seq<Seq<char>>,
    target: TargetView,
    context: ContextView,
)
    ensures
        ({
            let for_user = instance.scope == ScopeView::Generic && target.kind == TargetKind::User;
            let at_home = (instance.scope matches ScopeView::PythonVenv(home) && target.kind
                == TargetKind::PythonVenv && target.exists && (target.path matches Some(path)
                && path_same(path, home)));
            let plan = PipAdapter.plans(host, instance, packages, target, context);
            &&& plan is Ok <==> for_user || at_home
            &&& plan matches Err(e) ==> e.kind == ErrorKind::ForeignTarget
            &&& plan matches Ok(steps) ==> {
                &&& steps.len() == 1
                &&& steps[0].program == instance.executable
                &&& for_user ==> steps[0].args == seq![
                    "--disable-pip-version-check"@,
                    "install"@,
                    "--index-url"@,
                    "https://pypi.org/simple"@,
                    "--user"@,
                ] + packages
                &&& at_home ==> steps[0].args == seq![
                    "--disable-pip-version-check"@,
                    "install"@,
                    "--index-url"@,
                    "https://pypi.org/simple"@,
                ] + packages
                &&& steps[0].cwd is None
                &&& steps[0].env == seq![
                    (
                        "PIP_CONFIG_FILE"@,
                        match host.platform {
                            crate::path::Platform::Windows => "NUL"@,
                            crate::path::Platform::Unix => "/dev/null"@,
                        },
                    ),
                ]
                &&& steps[0].env_remove_prefixes == seq!["PIP_"@, "PYTHON"@, "VIRTUAL_ENV"@]
                &&& steps[0].must_not_exist is None
                &&& !steps[0].requires_admin
                &&& steps[0].label == "pip install "@ + crate::text::decimal(packages.len())
                    + " package(s)"@
            }
        }),
{
    reveal_with_fuel(env_of, 2);
    let pairs = seq![("PIP_CONFIG_FILE"@, null_file(host.platform))];
    assert(pairs.drop_last() =~= Seq::<(Seq<char>, Seq<char>)>::empty());
    assert(env_of(pairs) =~= pairs);
    if let Ok(steps) = PipAdapter.plans(host, instance, packages, target, context) {
        if installs_for_user(instance, target) {
            assert(base_args().push("--user"@) =~= seq![
                "--disable-pip-version-check"@,
                "install"@,
                "--index-url"@,
                "https://pypi.org/simple"@,
                "--user"@,
            ]);
        }
    }
}

/// A search of pip asks PyPI for the distribution that the query names, and finds that
/// distribution, if there is one.
pub proof fn law_pip_searches(
    host: HostView,
    instance: InstanceView,
    query: Seq<char>,
    reply: Option<PypiView>,
)
    ensures
        query_verdict(query) matches Err(e) ==> PipAdapter.asks(host, instance, query) == Err::<
            SearchRequestView,
            ErrorView,
        >(e),
        query_verdict(query) is Ok ==> match canonical_name(query) {
            Ok(name) => PipAdapter.asks(host, instance, query) == Ok::<SearchRequestView, ErrorView>(
                SearchRequestView::Pypi(name),
            ),
            Err(e) => PipAdapter.asks(host, instance, query) == Err::<SearchRequestView, ErrorView>(
                e,
            ),
        },
        PipAdapter.finds(instance, query, SearchReplyView::Pypi(reply)) matches Ok(found) && {
            &&& reply is None ==> found.len() == 0
            &&& reply matches Some(package) ==> {
                &&& found.len() == 1
                &&& found[0].package == package.name
                &&& found[0].match_name == package.name
                &&& found[0].version == Some(package.version)
                &&& found[0].description == package.summary
                &&& found[0].query == query
                &&& found[0].manager == ManagerKind::Pip
                &&& found[0].manager_instance_id == instance.id
                &&& found[0].verified
                &&& found[0].source == "https://pypi.org/simple"@
            }
        },
{
}

/// An instance of pip is bound to the first existing environment that its executable
/// lies in; if it lies in none, it is bound to none.
pub proof fn law_pip_belongs_to_its_environment(
    targets: Seq<TargetView>,
    executable: PathView,
    k: int,
)
    ensures
        0 <= k < targets.len() && targets[k].kind == TargetKind::PythonVenv && targets[k].exists && (
        targets[k].path matches Some(path) && path_under(executable, path)) && (forall|j: int|
            0 <= j < k ==> !((#[trigger] targets[j]).kind == TargetKind::PythonVenv
                && targets[j].exists && (targets[j].path matches Some(path) && path_under(
                executable,
                path,
            )))) ==> owner(targets, executable) == ScopeView::PythonVenv(targets[k].path->0),
        (forall|j: int|
            0 <= j < targets.len() ==> !((#[trigger] targets[j]).kind == TargetKind::PythonVenv
                && targets[j].exists && (targets[j].path matches Some(path) && path_under(
                executable,
                path,
            )))) ==> owner(targets, executable) == ScopeView::Generic,
    decreases targets.len(),
{
    if targets.len() > 0 {
        let rest = targets.drop_first();
        assert(forall|j: int| 0 <= j < rest.len() ==> #[trigger] rest[j] == targets[j + 1]);
        law_pip_belongs_to_its_environment(rest, executable, k - 1);
        if 0 < k < targets.len() {
            assert(rest[k - 1] == targets[k]);
        }
    }
}

/// Each pip that was found is one instance, under the version that it printed.
pub proof fn law_each_pip_is_an_instance(
    paths: Seq<PathView>,
    targets: Seq<TargetView>,
    replies: Seq<Option<OutputView>>,
)
    ensures
        ({
            let instances = pip_instances(paths, targets, replies);
            &&& instances.len() == paths.len()
            &&& forall|i: int|
                0 <= i < instances.len() ==> {
                    &&& (#[trigger] instances[i]).kind == ManagerKind::Pip
                    &&& instances[i].executable == paths[i]
                    &&& instances[i].launcher_args.len() == 0
                    &&& instances[i].id == "pip:"@ + path_text(paths[i])
                    &&& instances[i].version == version_line(replies[i])
                    &&& instances[i].scope == owner(targets, paths[i])
                }
        }),
{
    reveal_strlit("pip");
    reveal_strlit(":");
    reveal_strlit("pip:");
    assert("pip"@ + ":"@ =~= "pip:"@);
}

} // verus!
