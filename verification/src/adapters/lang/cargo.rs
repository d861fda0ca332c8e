//! Cargo.

use vstd::prelude::*;

use crate::adapters::{
    make_instances, ManagerAdapter, of_kind, package_verdict, plain_instances, probe_versions,
    query_verdict, SearchReply, SearchReplyView, SearchRequest, SearchRequestView,
    targets_of_kind, validate_query, version_probes, MAX_RAW_CANDIDATES,
};
use crate::adapters::lang::{is_semantic_version, semantic_version};
use crate::adapters::lang::crates_io::{
    CratePackage, CrateView, is_crate_name, parse_response, SearchCrateView, usable_crates,
    valid_crate_name,
};
use crate::context::{ContextView, ProjectContext};
use crate::error::{
    debug_quoted, debug_text, Error, ErrorKind, ErrorView, failure, verdict,
};
use crate::host::{Host, HostView};
use crate::model::{
    Candidate, CandidateView, CommandSpec, CommandView, env_of, env_value, EnvMap, EnvVar,
    InstanceView, law_last_value_is_set, ManagerInstance, ManagerKind, MatchKind, Target,
    TargetKind, TargetView,
};
use crate::path::{FilePath, path_child, path_exact, path_text, PathView};
use crate::platform::{home, home_dir};
use crate::process::{
    CaptureRequest, CapturedOutput, find_user_commands, OutputView, RequestView, user_commands,
};
use crate::text::{
    cat2, cat3, clone_option, find_from, is_control, law_split_at_the_first, lemma_find_from,
    list_of, occurs_at, split_once, take_at_most, text_split_once, views,
};

verus! {

broadcast use crate::text::group_views;

#[derive(Debug, Clone, Copy, PartialEq, Eq, Structural)]
pub struct CargoAdapter;

/// The variables that could change what Cargo does.
pub open spec fn cargo_removals() -> Seq<Seq<char>> {
    seq!["CARGO_"@, "RUSTC"@, "RUSTDOC"@, "RUSTFLAGS"@, "RUSTUP_"@]
}

fn cargo_env_removals() -> (r: Vec<String>)
    ensures
        views(r@) == cargo_removals(),
{
    let r = list_of(&["CARGO_", "RUSTC", "RUSTDOC", "RUSTFLAGS", "RUSTUP_"]);
    assert(views(r@) =~= cargo_removals());
    r
}

// ---------------------------------------------------------------------------
// Specifications
// ---------------------------------------------------------------------------

/// What is wrong with a specification, given whether what follows its first `@`
/// is a semantic version.
pub open spec fn spec_verdict_by(spec: Seq<char>, semantic: bool) -> Result<(), ErrorView> {
    match split_once(spec, "@"@) {
        None => Err(
            failure(
                ErrorKind::NotPinned,
                "Cargo package "@ + debug_text(spec) + " is not pinned to an exact version"@,
            ),
        ),
        Some((name, version)) => if !is_crate_name(name) {
            Err(failure(ErrorKind::InvalidName, "invalid Cargo crate name "@ + debug_text(name)))
        } else if !semantic {
            Err(
                failure(
                    ErrorKind::InvalidVersion,
                    "invalid Cargo version "@ + debug_text(version),
                ),
            )
        } else {
            Ok(())
        },
    }
}

/// Whether what follows the first `@` is a semantic version.
pub open spec fn names_version(spec: Seq<char>) -> bool {
    split_once(spec, "@"@) matches Some((_, version)) && semantic_version(version)
}

/// What is wrong with a specification: it has to be a crate, `@` and a version.
pub open spec fn spec_verdict(spec: Seq<char>) -> Result<(), ErrorView> {
    spec_verdict_by(spec, names_version(spec))
}

/// Checks a specification, given whether what follows its first `@` is a semantic
/// version.
pub fn check_exact_spec(spec: &str, semantic: bool) -> (r: Result<(), Error>)
    ensures
        verdict(r) == spec_verdict_by(spec@, semantic),
{
    match text_split_once(spec, "@") {
        None => Err(
            Error::new(
                ErrorKind::NotPinned,
                cat3(
                    "Cargo package ",
                    debug_quoted(spec).as_str(),
                    " is not pinned to an exact version",
                ).as_str(),
            ),
        ),
        Some((name, version)) => if !valid_crate_name(name.as_str()) {
            Err(
                Error::new(
                    ErrorKind::InvalidName,
                    cat2("invalid Cargo crate name ", debug_quoted(name.as_str()).as_str()).as_str(),
                ),
            )
        } else if !semantic {
            Err(
                Error::new(
                    ErrorKind::InvalidVersion,
                    cat2("invalid Cargo version ", debug_quoted(version.as_str()).as_str()).as_str(),
                ),
            )
        } else {
            Ok(())
        },
    }
}

pub fn validate_exact_spec(spec: &str) -> (r: Result<(), Error>)
    ensures
        verdict(r) == spec_verdict(spec@),
{
    let semantic = match text_split_once(spec, "@") {
        Some((_, version)) => is_semantic_version(version.as_str()),
        None => false,
    };
    check_exact_spec(spec, semantic)
}

/// A crate, `@` and a version make a specification that can be planned.
pub proof fn lemma_pinned_spec(name: Seq<char>, version: Seq<char>)
    requires
        is_crate_name(name),
        semantic_version(version),
    ensures
        package_verdict(name + "@"@ + version) is Ok,
        spec_verdict(name + "@"@ + version) is Ok,
{
    let spec = name + "@"@ + version;
    reveal_strlit("@");
    assert(spec[0] == name[0]);
    assert forall|i: int| 0 <= i < spec.len() implies !is_control(#[trigger] spec[i]) by {
        if i < name.len() {
            assert(spec[i] == name[i]);
        } else if i > name.len() {
            assert(spec[i] == version[i - name.len() - 1]);
        }
    }
    lemma_find_from(spec, "@"@, 0);
    assert(spec.subrange(name.len() as int, name.len() + 1int) =~= "@"@);
    assert(occurs_at(spec, "@"@, name.len() as int));
    let at = find_from(spec, "@"@, 0)->0;
    assert(spec.subrange(at, at + 1)[0] == spec[at]);
    if at < name.len() {
        assert(spec[at] == name[at]);
    }
    assert(spec.take(at) =~= name);
    assert(spec.skip(at + 1) =~= version);
}

// ---------------------------------------------------------------------------
// Steps
// ---------------------------------------------------------------------------

/// The directory that commands are run in: away from the project, so that its
/// settings do not apply.
pub open spec fn neutral_directory(host: HostView, context: ContextView) -> PathView {
    match home(host) {
        Some(home) => home,
        None => context.cwd,
    }
}

pub(crate) fn find_neutral_directory(host: &Host, context: &ProjectContext) -> (r: FilePath)
    ensures
        r@ == neutral_directory(host@, context@),
{
    match home_dir(host) {
        Some(home) => home,
        None => context.cwd.clone(),
    }
}

pub open spec fn install_args(root: PathView, package: Seq<char>) -> Seq<Seq<char>> {
    seq![
        "--config"@,
        "net.git-fetch-with-cli=false"@,
        "install"@,
        "--locked"@,
        "--root"@,
        path_text(root),
        "--registry"@,
        "crates-io"@,
        "--color"@,
        "never"@,
        package,
    ]
}

/// The variables of a step: a Cargo home of its own below the install root, and no
/// compiler wrappers.
pub open spec fn install_environment(root: PathView) -> Seq<(Seq<char>, Seq<char>)> {
    env_of(
        seq![
            (
                "CARGO_HOME"@,
                path_text(path_child(path_child(root, ".mate-cache"@), "cargo-home"@)),
            ),
            ("CARGO_TERM_COLOR"@, "never"@),
            ("RUSTC_WRAPPER"@, Seq::empty()),
            ("RUSTC_WORKSPACE_WRAPPER"@, Seq::empty()),
        ],
    )
}

/// The step that installs one crate.
pub open spec fn install_step(
    instance: InstanceView,
    root: PathView,
    cwd: PathView,
    package: Seq<char>,
    guarded: bool,
) -> CommandView {
    CommandView {
        label: "cargo install "@ + package,
        program: instance.executable,
        args: instance.launcher_args + install_args(root, package),
        cwd: Some(cwd),
        env: install_environment(root),
        env_remove_prefixes: cargo_removals(),
        must_not_exist: if guarded {
            Some(root)
        } else {
            None
        },
        requires_admin: false,
    }
}

/// One step for each crate, the first of which guards the root that it creates.
pub open spec fn install_steps(
    instance: InstanceView,
    root: PathView,
    cwd: PathView,
    packages: Seq<Seq<char>>,
    exists: bool,
) -> Result<Seq<CommandView>, ErrorView>
    decreases packages.len(),
{
    if packages.len() == 0 {
        Ok(Seq::empty())
    } else {
        match install_steps(instance, root, cwd, packages.drop_last(), exists) {
            Err(e) => Err(e),
            Ok(steps) => match spec_verdict(packages.last()) {
                Err(e) => Err(e),
                Ok(_) => Ok(
                    steps.push(
                        install_step(
                            instance,
                            root,
                            cwd,
                            packages.last(),
                            !exists && packages.len() == 1,
                        ),
                    ),
                ),
            },
        }
    }
}

proof fn lemma_install_steps_stop(
    instance: InstanceView,
    root: PathView,
    cwd: PathView,
    packages: Seq<Seq<char>>,
    exists: bool,
    n: int,
)
    requires
        0 <= n <= packages.len(),
        install_steps(instance, root, cwd, packages.take(n), exists) is Err,
    ensures
        install_steps(instance, root, cwd, packages, exists) == install_steps(
            instance,
            root,
            cwd,
            packages.take(n),
            exists,
        ),
    decreases packages.len() - n,
{
    if n < packages.len() {
        assert(packages.take(n + 1).drop_last() =~= packages.take(n));
        lemma_install_steps_stop(instance, root, cwd, packages, exists, n + 1);
    } else {
        assert(packages.take(n) =~= packages);
    }
}

fn make_environment(root: &FilePath) -> (r: EnvMap)
    ensures
        r@ == install_environment(root@),
{
    let cargo_home = root.child(".mate-cache").child("cargo-home").text();
    let ghost all = seq![
        ("CARGO_HOME"@, cargo_home@),
        ("CARGO_TERM_COLOR"@, "never"@),
        ("RUSTC_WRAPPER"@, Seq::<char>::empty()),
        ("RUSTC_WORKSPACE_WRAPPER"@, Seq::<char>::empty()),
    ];
    proof {
        reveal_strlit("");
        assert(""@ =~= Seq::<char>::empty());
        reveal_with_fuel(env_of, 5);
        assert(all.drop_last() =~= all.take(3));
        assert(all.take(3).drop_last() =~= all.take(2));
        assert(all.take(2).drop_last() =~= all.take(1));
        assert(all.take(1).drop_last() =~= all.take(0));
    }
    EnvMap::new().with("CARGO_HOME", cargo_home.as_str()).with("CARGO_TERM_COLOR", "never").with(
        "RUSTC_WRAPPER",
        "",
    ).with("RUSTC_WORKSPACE_WRAPPER", "")
}

fn make_step(
    instance: &ManagerInstance,
    root: &FilePath,
    cwd: &FilePath,
    package: &str,
    guarded: bool,
) -> (r: CommandSpec)
    ensures
        r@ == install_step(instance@, root@, cwd@, package@, guarded),
{
    let root_arg = root.text();
    let args = list_of(
        &[
            "--config",
            "net.git-fetch-with-cli=false",
            "install",
            "--locked",
            "--root",
            root_arg.as_str(),
            "--registry",
            "crates-io",
            "--color",
            "never",
            package,
        ],
    );
    assert(views(args@) =~= install_args(root@, package@));
    CommandSpec {
        label: cat2("cargo install ", package),
        program: instance.executable.clone(),
        args: instance.prepend_launcher(args),
        cwd: Some(cwd.clone()),
        env: make_environment(root),
        env_remove_prefixes: cargo_env_removals(),
        must_not_exist: if guarded {
            Some(root.clone())
        } else {
            None
        },
        requires_admin: false,
    }
}

fn make_steps(
    instance: &ManagerInstance,
    root: &FilePath,
    cwd: &FilePath,
    packages: &Vec<String>,
    exists: bool,
) -> (r: Result<Vec<CommandSpec>, Error>)
    ensures
        crate::error::outcome_list(r) == install_steps(
            instance@,
            root@,
            cwd@,
            views(packages@),
            exists,
        ),
{
    let ghost all = views(packages@);
    let mut steps: Vec<CommandSpec> = Vec::new();
    let n: usize = packages.len();
    assert(views(steps@) =~= Seq::<CommandView>::empty());
    for i in 0..n
        invariant
            n == packages@.len(),
            all == views(packages@),
            install_steps(instance@, root@, cwd@, all.take(i as int), exists) == Ok::<
                Seq<CommandView>,
                ErrorView,
            >(views(steps@)),
    {
        proof {
            assert(all.take(i + 1).drop_last() =~= all.take(i as int));
            assert(all.take(i + 1).last() == packages@[i as int]@);
        }
        match validate_exact_spec(packages[i].as_str()) {
            Ok(_) => {},
            Err(e) => {
                proof {
                    lemma_install_steps_stop(instance@, root@, cwd@, all, exists, i + 1);
                }
                return Err(e);
            },
        }
        steps.push(make_step(instance, root, cwd, packages[i].as_str(), !exists && i == 0));
    }
    assert(all.take(n as int) =~= all);
    Ok(steps)
}

// ---------------------------------------------------------------------------
// Candidates
// ---------------------------------------------------------------------------

pub open spec fn crate_candidate(package: CrateView, query: Seq<char>, instance: Seq<char>) -> CandidateView {
    CandidateView {
        query,
        package: package.name,
        match_name: package.name,
        manager_instance_id: instance,
        manager: ManagerKind::Cargo,
        source: "https://crates.io"@,
        version: Some(package.version),
        description: package.description,
        score: 0,
        match_kind: MatchKind::Unmatched,
        verified: true,
    }
}

/// The candidates for the given crates.
pub open spec fn crate_candidates(
    packages: Seq<CrateView>,
    query: Seq<char>,
    instance: Seq<char>,
) -> Seq<CandidateView> {
    packages.map_values(|package: CrateView| crate_candidate(package, query, instance))
}

/// The candidates for the given crates.
pub fn candidates_for(packages: &Vec<CratePackage>, query: &str, instance_id: &str) -> (r: Vec<
    Candidate,
>)
    ensures
        views(r@) == crate_candidates(views(packages@), query@, instance_id@),
{
    let ghost all = crate_candidates(views(packages@), query@, instance_id@);
    let mut r: Vec<Candidate> = Vec::new();
    let n: usize = packages.len();
    assert(views(r@) =~= all.take(0));
    for i in 0..n
        invariant
            n == packages@.len(),
            all == crate_candidates(views(packages@), query@, instance_id@),
            views(r@) == all.take(i as int),
    {
        let candidate = Candidate {
            query: query.to_owned(),
            package: packages[i].name.clone(),
            match_name: packages[i].name.clone(),
            manager_instance_id: instance_id.to_owned(),
            manager: ManagerKind::Cargo,
            source: "https://crates.io".to_owned(),
            version: Some(packages[i].version.clone()),
            description: clone_option(&packages[i].description),
            score: 0,
            match_kind: MatchKind::Unmatched,
            verified: true,
        };
        r.push(candidate);
        proof {
            assert(all[i as int] == candidate@);
            assert(views(r@) =~= all.take(i + 1));
        }
    }
    assert(all.take(n as int) =~= all);
    r
}

impl ManagerAdapter for CargoAdapter {
    open spec fn manager(&self) -> ManagerKind {
        ManagerKind::Cargo
    }

    fn kind(&self) -> (r: ManagerKind) {
        ManagerKind::Cargo
    }

    open spec fn searchable(&self) -> bool {
        true
    }

    fn supports_search(&self) -> (r: bool) {
        true
    }

    open spec fn installable(&self) -> bool {
        true
    }

    fn supports_install(&self) -> (r: bool) {
        true
    }

    open spec fn fuzzy(&self) -> bool {
        true
    }

    fn supports_fuzzy_fallback(&self) -> (r: bool) {
        true
    }

    open spec fn probes(&self, host: HostView, context: ContextView) -> Seq<RequestView> {
        version_probes(
            user_commands(host, "cargo"@, context.workspace_root),
            cargo_removals(),
            seq![("CARGO_TERM_COLOR"@, "never"@)],
            Some(neutral_directory(host, context)),
        )
    }

    fn discovery_requests(&self, host: &Host, context: &ProjectContext) -> (r: Vec<CaptureRequest>) {
        let found = find_user_commands(host, "cargo", &context.workspace_root);
        let mut env: Vec<EnvVar> = Vec::new();
        env.push(EnvVar { name: "CARGO_TERM_COLOR".to_owned(), value: "never".to_owned() });
        assert(views(env@) =~= seq![("CARGO_TERM_COLOR"@, "never"@)]);
        probe_versions(
            &found,
            &cargo_env_removals(),
            &env,
            &Some(find_neutral_directory(host, context)),
        )
    }

    open spec fn instances(
        &self,
        host: HostView,
        context: ContextView,
        replies: Seq<Option<OutputView>>,
    ) -> Seq<InstanceView> {
        plain_instances(
            ManagerKind::Cargo,
            user_commands(host, "cargo"@, context.workspace_root),
            replies,
        )
    }

    fn discover(
        &self,
        host: &Host,
        context: &ProjectContext,
        replies: &Vec<Option<CapturedOutput>>,
    ) -> (r: Vec<ManagerInstance>) {
        let found = find_user_commands(host, "cargo", &context.workspace_root);
        make_instances(ManagerKind::Cargo, &found, replies)
    }

    open spec fn asks(&self, host: HostView, instance: InstanceView, query: Seq<char>) -> Result<
        SearchRequestView,
        ErrorView,
    > {
        match query_verdict(query) {
            Err(e) => Err(e),
            Ok(_) => Ok(SearchRequestView::CratesIo(query)),
        }
    }

    fn search_request(&self, host: &Host, instance: &ManagerInstance, query: &str) -> (r: Result<
        SearchRequest,
        Error,
    >) {
        match validate_query(query) {
            Err(e) => Err(e),
            Ok(_) => Ok(SearchRequest::CratesIo(query.to_owned())),
        }
    }

    open spec fn finds(&self, instance: InstanceView, query: Seq<char>, reply: SearchReplyView) -> Result<
        Seq<CandidateView>,
        ErrorView,
    > {
        match reply {
            SearchReplyView::Crates(entries) => Ok(
                crate_candidates(
                    take_at_most(usable_crates(entries), MAX_RAW_CANDIDATES as nat),
                    query,
                    instance.id,
                ),
            ),
            _ => Ok(Seq::empty()),
        }
    }

    fn search(&self, instance: &ManagerInstance, query: &str, reply: &SearchReply) -> (r: Result<
        Vec<Candidate>,
        Error,
    >) {
        match reply {
            SearchReply::Crates(entries) => Ok(
                candidates_for(&parse_response(entries), query, instance.id.as_str()),
            ),
            _ => Ok(Vec::new()),
        }
    }

    open spec fn targets(&self, host: HostView, instance: InstanceView, context: ContextView) -> Seq<
        TargetView,
    > {
        of_kind(context.targets, TargetKind::CargoRoot)
    }

    fn compatible_targets(
        &self,
        host: &Host,
        instance: &ManagerInstance,
        context: &ProjectContext,
    ) -> (r: Vec<Target>) {
        targets_of_kind(&context.targets, TargetKind::CargoRoot)
    }

    open spec fn plans(
        &self,
        host: HostView,
        instance: InstanceView,
        packages: Seq<Seq<char>>,
        target: TargetView,
        context: ContextView,
    ) -> Result<Seq<CommandView>, ErrorView> {
        if target.kind != TargetKind::CargoRoot {
            Err(
                failure(
                    ErrorKind::UnsupportedTarget,
                    "cargo only supports a Cargo install root target"@,
                ),
            )
        } else if target.path is None {
            Err(failure(ErrorKind::TargetWithoutPath, "Cargo install root target has no path"@))
        } else if !path_exact(target.path->0) {
            Err(failure(ErrorKind::PathNotUnicode, "Cargo install root is not valid UTF-8"@))
        } else {
            install_steps(
                instance,
                target.path->0,
                neutral_directory(host, context),
                packages,
                target.exists,
            )
        }
    }

    fn plan(
        &self,
        host: &Host,
        instance: &ManagerInstance,
        packages: &Vec<String>,
        target: &Target,
        context: &ProjectContext,
    ) -> (r: Result<Vec<CommandSpec>, Error>) {
        if target.kind != TargetKind::CargoRoot {
            return Err(
                Error::new(
                    ErrorKind::UnsupportedTarget,
                    "cargo only supports a Cargo install root target",
                ),
            );
        }
        let root = match &target.path {
            Some(root) => root,
            None => {
                return Err(
                    Error::new(
                        ErrorKind::TargetWithoutPath,
                        "Cargo install root target has no path",
                    ),
                );
            },
        };
        if !root.is_exact() {
            return Err(
                Error::new(ErrorKind::PathNotUnicode, "Cargo install root is not valid UTF-8"),
            );
        }
        let cwd = find_neutral_directory(host, context);
        make_steps(instance, root, &cwd, packages, target.exists)
    }
}

/// A plan of Cargo has one step for each crate. Each is locked, takes its crate from
/// crates.io and names its exact version; the first guards a root that does not
/// exist yet, and no other step has a guard.
pub proof fn law_one_locked_step_per_crate(
    host: HostView,
    instance: InstanceView,
    packages: Seq<Seq<char>>,
    target: TargetView,
    context: ContextView,
)
    ensures
        CargoAdapter.plans(host, instance, packages, target, context) matches Ok(steps) ==> {
            &&& steps.len() == packages.len()
            &&& forall|i: int|
                0 <= i < steps.len() ==> {
                    &&& spec_verdict(packages[i]) is Ok
                    &&& (#[trigger] steps[i]).args.contains("--locked"@)
                    &&& steps[i].args.contains("--registry"@)
                    &&& steps[i].args.contains("crates-io"@)
                    &&& steps[i].args.last() == packages[i]
                    &&& !steps[i].requires_admin
                    &&& steps[i].must_not_exist == if i == 0 && !target.exists {
                        target.path
                    } else {
                        None
                    }
                }
        },
{
    if target.kind == TargetKind::CargoRoot && target.path is Some && path_exact(target.path->0) {
        lemma_install_steps(
            instance,
            target.path->0,
            neutral_directory(host, context),
            packages,
            target.exists,
        );
    }
}

proof fn lemma_install_steps(
    instance: InstanceView,
    root: PathView,
    cwd: PathView,
    packages: Seq<Seq<char>>,
    exists: bool,
)
    ensures
        install_steps(instance, root, cwd, packages, exists) matches Ok(steps) ==> {
            &&& steps.len() == packages.len()
            &&& forall|i: int|
                0 <= i < steps.len() ==> {
                    &&& spec_verdict(packages[i]) is Ok
                    &&& (#[trigger] steps[i]).args.contains("--locked"@)
                    &&& steps[i].args.contains("--registry"@)
                    &&& steps[i].args.contains("crates-io"@)
                    &&& steps[i].args.last() == packages[i]
                    &&& !steps[i].requires_admin
                    &&& steps[i].must_not_exist == if i == 0 && !exists {
                        Some(root)
                    } else {
                        None
                    }
                }
        },
    decreases packages.len(),
{
    if packages.len() > 0 {
        let rest = packages.drop_last();
        lemma_install_steps(instance, root, cwd, rest, exists);
        match install_steps(instance, root, cwd, packages, exists) {
            Ok(steps) => {
                let before = install_steps(instance, root, cwd, rest, exists)->Ok_0;
                assert forall|i: int| 0 <= i < steps.len() implies {
                    &&& spec_verdict(packages[i]) is Ok
                    &&& (#[trigger] steps[i]).args.contains("--locked"@)
                    &&& steps[i].args.contains("--registry"@)
                    &&& steps[i].args.contains("crates-io"@)
                    &&& steps[i].args.last() == packages[i]
                    &&& !steps[i].requires_admin
                    &&& steps[i].must_not_exist == if i == 0 && !exists {
                        Some(root)
                    } else {
                        None
                    }
                } by {
                    if i < before.len() {
                        assert(steps[i] == before[i]);
                        assert(rest[i] == packages[i]);
                    } else {
                        let args = install_args(root, packages.last());
                        let all = instance.launcher_args + args;
                        assert(all[instance.launcher_args.len() + 3int] == "--locked"@);
                        assert(all[instance.launcher_args.len() + 6int] == "--registry"@);
                        assert(all[instance.launcher_args.len() + 7int] == "crates-io"@);
                        assert(all.last() == args.last());
                    }
                }
            },
            Err(_) => {},
        }
    }
}

/// What Cargo is told to install with: for an install root at a path of Unicode names,
/// one step for each crate, in order and without elevation, in which Cargo gets
/// `install`, `--locked`, the root, the registry crates.io and the crate, runs away from
/// the project and keeps its own files below the root. All crates have to be pinned.
pub proof fn law_cargo_installs(
    host: HostView,
    instance: InstanceView,
    packages: Seq<Seq<char>>,
    target: TargetView,
    context: ContextView,
)
    ensures
        target.kind != TargetKind::CargoRoot ==> (CargoAdapter.plans(
            host,
            instance,
            packages,
            target,
            context,
        ) matches Err(e) && e.kind == ErrorKind::UnsupportedTarget),
        target.kind == TargetKind::CargoRoot && target.path is None ==> (CargoAdapter.plans(
            host,
            instance,
            packages,
            target,
            context,
        ) matches Err(e) && e.kind == ErrorKind::TargetWithoutPath),
        target.kind == TargetKind::CargoRoot && (target.path matches Some(root) && !path_exact(root))
            ==> (CargoAdapter.plans(host, instance, packages, target, context) matches Err(e)
            && e.kind == ErrorKind::PathNotUnicode),
        target.kind == TargetKind::CargoRoot && (target.path matches Some(root) && path_exact(root))
            ==> (CargoAdapter.plans(host, instance, packages, target, context) is Ok <==> forall|
            i: int,
        |
            0 <= i < packages.len() ==> spec_verdict(#[trigger] packages[i]) is Ok),
        CargoAdapter.plans(host, instance, packages, target, context) matches Ok(steps) ==> {
            &&& steps.len() == packages.len()
            &&& forall|i: int|
                0 <= i < steps.len() ==> {
                    let root = target.path->0;
                    &&& (#[trigger] steps[i]).program == instance.executable
                    &&& steps[i].args == instance.launcher_args + seq![
                        "--config"@,
                        "net.git-fetch-with-cli=false"@,
                        "install"@,
                        "--locked"@,
                        "--root"@,
                        path_text(root),
                        "--registry"@,
                        "crates-io"@,
                        "--color"@,
                        "never"@,
                        packages[i],
                    ]
                    &&& steps[i].cwd == Some(
                        match home(host) {
                            Some(home) => home,
                            None => context.cwd,
                        },
                    )
                    &&& env_value(steps[i].env, "CARGO_HOME"@) == Some(
                        path_text(path_child(path_child(root, ".mate-cache"@), "cargo-home"@)),
                    )
                    &&& env_value(steps[i].env, "CARGO_TERM_COLOR"@) == Some("never"@)
                    &&& env_value(steps[i].env, "RUSTC_WRAPPER"@) == Some(Seq::<char>::empty())
                    &&& env_value(steps[i].env, "RUSTC_WORKSPACE_WRAPPER"@) == Some(
                        Seq::<char>::empty(),
                    )
                    &&& steps[i].env_remove_prefixes == seq![
                        "CARGO_"@,
                        "RUSTC"@,
                        "RUSTDOC"@,
                        "RUSTFLAGS"@,
                        "RUSTUP_"@,
                    ]
                    &&& steps[i].must_not_exist == if i == 0 && !target.exists {
                        target.path
                    } else {
                        None
                    }
                    &&& !steps[i].requires_admin
                    &&& steps[i].label == "cargo install "@ + packages[i]
                }
        },
{
    if target.kind == TargetKind::CargoRoot && target.path is Some && path_exact(target.path->0) {
        let root = target.path->0;
        let cwd = neutral_directory(host, context);
        lemma_each_crate_is_a_step(instance, root, cwd, packages, target.exists);
        lemma_environment_values(root);
    }
}

proof fn lemma_each_crate_is_a_step(
    instance: InstanceView,
    root: PathView,
    cwd: PathView,
    packages: Seq<Seq<char>>,
    exists: bool,
)
    ensures
        install_steps(instance, root, cwd, packages, exists) is Ok <==> forall|i: int|
            0 <= i < packages.len() ==> spec_verdict(#[trigger] packages[i]) is Ok,
        install_steps(instance, root, cwd, packages, exists) matches Ok(steps) ==> steps.len()
            == packages.len() && forall|i: int|
            0 <= i < steps.len() ==> #[trigger] steps[i] == install_step(
                instance,
                root,
                cwd,
                packages[i],
                !exists && i == 0,
            ),
    decreases packages.len(),
{
    if packages.len() > 0 {
        let rest = packages.drop_last();
        lemma_each_crate_is_a_step(instance, root, cwd, rest, exists);
        if forall|i: int| 0 <= i < packages.len() ==> spec_verdict(#[trigger] packages[i]) is Ok {
            assert forall|i: int| 0 <= i < rest.len() implies spec_verdict(
                #[trigger] rest[i],
            ) is Ok by {
                assert(rest[i] == packages[i]);
            }
            assert(spec_verdict(packages[packages.len() - 1]) is Ok);
        }
        if install_steps(instance, root, cwd, packages, exists) is Ok {
            assert forall|i: int| 0 <= i < packages.len() implies spec_verdict(
                #[trigger] packages[i],
            ) is Ok by {
                if i < rest.len() {
                    assert(rest[i] == packages[i]);
                }
            }
        }
    }
}

proof fn lemma_environment_values(root: PathView)
    ensures
        ({
            let env = install_environment(root);
            &&& env_value(env, "CARGO_HOME"@) == Some(
                path_text(path_child(path_child(root, ".mate-cache"@), "cargo-home"@)),
            )
            &&& env_value(env, "CARGO_TERM_COLOR"@) == Some("never"@)
            &&& env_value(env, "RUSTC_WRAPPER"@) == Some(Seq::<char>::empty())
            &&& env_value(env, "RUSTC_WORKSPACE_WRAPPER"@) == Some(Seq::<char>::empty())
        }),
{
    reveal_strlit("CARGO_HOME");
    reveal_strlit("CARGO_TERM_COLOR");
    reveal_strlit("RUSTC_WRAPPER");
    reveal_strlit("RUSTC_WORKSPACE_WRAPPER");
    let pairs = seq![
        ("CARGO_HOME"@, path_text(path_child(path_child(root, ".mate-cache"@), "cargo-home"@))),
        ("CARGO_TERM_COLOR"@, "never"@),
        ("RUSTC_WRAPPER"@, Seq::empty()),
        ("RUSTC_WORKSPACE_WRAPPER"@, Seq::empty()),
    ];
    law_last_value_is_set(pairs, 0, Seq::empty());
    law_last_value_is_set(pairs, 1, Seq::empty());
    law_last_value_is_set(pairs, 2, Seq::empty());
    law_last_value_is_set(pairs, 3, Seq::empty());
    assert(pairs[0].0.len() == 10 && pairs[1].0.len() == 16 && pairs[2].0.len() == 13
        && pairs[3].0.len() == 23);
}

/// A crate is pinned if it reads as a name that a crate can have, `@` and a semantic
/// version; what reads otherwise is told apart by what is wrong with it.
pub proof fn law_crate_is_pinned(name: Seq<char>, version: Seq<char>)
    requires
        forall|j: int| 0 <= j < name.len() ==> name[j] != '@',
    ensures
        spec_verdict(name + "@"@ + version) is Ok <==> is_crate_name(name) && semantic_version(
            version,
        ),
        !is_crate_name(name) ==> (spec_verdict(name + "@"@ + version) matches Err(e) && e.kind
            == ErrorKind::InvalidName),
        is_crate_name(name) && !semantic_version(version) ==> (spec_verdict(
            name + "@"@ + version,
        ) matches Err(e) && e.kind == ErrorKind::InvalidVersion),
        spec_verdict(name) matches Err(e) && e.kind == ErrorKind::NotPinned,
{
    reveal_strlit("@");
    let spec = name + "@"@ + version;
    assert forall|j: int| 0 <= j < name.len() implies !#[trigger] occurs_at(spec, "@"@, j) by {
        if occurs_at(spec, "@"@, j) {
            assert(spec.subrange(j, j + 1)[0] == spec[j]);
            assert(spec[j] == name[j]);
        }
    }
    assert forall|j: int| 0 <= j implies !#[trigger] occurs_at(name, "@"@, j) by {
        if occurs_at(name, "@"@, j) {
            assert(name.subrange(j, j + 1)[0] == name[j]);
        }
    }
    law_split_at_the_first(name, "@"@, version);
}

/// A search of Cargo asks crates.io for the query, and makes a candidate of each entry
/// of the reply that is a crate, at most of the first forty.
pub proof fn law_cargo_searches(
    host: HostView,
    instance: InstanceView,
    query: Seq<char>,
    entries: Seq<SearchCrateView>,
)
    ensures
        query_verdict(query) matches Err(e) ==> CargoAdapter.asks(host, instance, query) == Err::<
            SearchRequestView,
            ErrorView,
        >(e),
        query_verdict(query) is Ok ==> (CargoAdapter.asks(
            host,
            instance,
            query,
        ) matches Ok(SearchRequestView::CratesIo(asked)) && asked == query),
        CargoAdapter.finds(
            instance,
            query,
            SearchReplyView::Crates(entries),
        ) matches Ok(found) && {
            let crates = usable_crates(entries);
            &&& found.len() == if crates.len() > 40 {
                40
            } else {
                crates.len()
            }
            &&& forall|i: int|
                0 <= i < found.len() ==> {
                    &&& (#[trigger] found[i]).package == crates[i].name
                    &&& found[i].match_name == crates[i].name
                    &&& found[i].version == Some(crates[i].version)
                    &&& found[i].description == crates[i].description
                    &&& found[i].query == query
                    &&& found[i].manager == ManagerKind::Cargo
                    &&& found[i].manager_instance_id == instance.id
                    &&& found[i].verified
                    &&& found[i].source == "https://crates.io"@
                }
        },
{
}

} // verus!
