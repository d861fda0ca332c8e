//! Package managers: discovery, search, targets, and plan generation.

pub mod apt;
pub mod brew;
pub mod lang;
pub mod pacman;
pub mod registry;

use vstd::prelude::*;

use crate::adapters::lang::crates_io::{SearchCrate, SearchCrateView};
use crate::adapters::lang::pypi::{PypiPackage, PypiView};
use crate::context::{ContextView, ProjectContext};
use crate::error::{
    debug_quoted, debug_text, Error, ErrorKind, ErrorView, failure, outcome, outcome_list, verdict,
};
use crate::host::{Host, HostView};
use crate::model::{
    Candidate, CandidateView, CommandSpec, CommandView, EnvVar, InstanceScope, InstanceView,
    manager_name, ManagerInstance, ManagerKind, ScopeView, Target, TargetKind, TargetView,
};
use crate::path::{clone_option_path, FilePath, path_text, PathView};
use crate::process::{
    CaptureRequest, CapturedOutput, diagnostic, OutputView, probe_version_sanitized_in,
    RequestView, version_line, version_request, version_text,
};
use crate::text::{
    cat3, clone_list, clone_texts, decimal, decimal_text, has_control, is_blank, is_control,
    is_whitespace, lemma_views_push, list_of, lower, option_view, same_ignoring_case, starts_with,
    starts_with_char, text_has_control, text_is_blank, text_lower, text_starts_with, trim, views,
};

verus! {

/// The most candidates that one search of one manager yields.
pub const MAX_RAW_CANDIDATES: usize = 40;

/// What a manager has to be asked to find a package.
#[derive(Debug)]
pub enum SearchRequest {
    /// Run this and read its output.
    Run(CaptureRequest),
    /// Ask crates.io for this.
    CratesIo(String),
    /// Ask PyPI for the distribution with this canonical name.
    Pypi(String),
}

pub enum SearchRequestView {
    Run(RequestView),
    CratesIo(Seq<char>),
    Pypi(Seq<char>),
}

impl View for SearchRequest {
    type V = SearchRequestView;

    open spec fn view(&self) -> SearchRequestView {
        match self {
            SearchRequest::Run(request) => SearchRequestView::Run(request@),
            SearchRequest::CratesIo(query) => SearchRequestView::CratesIo(query@),
            SearchRequest::Pypi(name) => SearchRequestView::Pypi(name@),
        }
    }
}

/// What was answered.
#[derive(Debug)]
pub enum SearchReply {
    Output(CapturedOutput),
    Crates(Vec<SearchCrate>),
    Pypi(Option<PypiPackage>),
}

pub enum SearchReplyView {
    Output(OutputView),
    Crates(Seq<SearchCrateView>),
    Pypi(Option<PypiView>),
}

impl View for SearchReply {
    type V = SearchReplyView;

    open spec fn view(&self) -> SearchReplyView {
        match self {
            SearchReply::Output(output) => SearchReplyView::Output(output@),
            SearchReply::Crates(list) => SearchReplyView::Crates(views(list@)),
            SearchReply::Pypi(package) => SearchReplyView::Pypi(option_view(*package)),
        }
    }
}

/// Whether a reply is one that a manager of this kind can have been given.
pub open spec fn fits(kind: ManagerKind, reply: SearchReplyView) -> bool {
    match kind {
        ManagerKind::Apt | ManagerKind::Pacman | ManagerKind::Brew | ManagerKind::Npm
        | ManagerKind::Npx => reply is Output,
        ManagerKind::Cargo => reply is Crates,
        ManagerKind::Pip | ManagerKind::Uv => reply is Pypi,
    }
}

/// Whether a reply is one that a manager of this kind can have been given.
pub fn reply_fits(kind: ManagerKind, reply: &SearchReply) -> (r: bool)
    ensures
        r == fits(kind, reply@),
{
    match (kind, reply) {
        (
            ManagerKind::Apt
            | ManagerKind::Pacman
            | ManagerKind::Brew
            | ManagerKind::Npm
            | ManagerKind::Npx,
            SearchReply::Output(_),
        ) => true,
        (ManagerKind::Cargo, SearchReply::Crates(_)) => true,
        (ManagerKind::Pip | ManagerKind::Uv, SearchReply::Pypi(_)) => true,
        _ => false,
    }
}

/// The views of replies, some of which may be missing.
pub open spec fn replies_view(replies: Seq<Option<CapturedOutput>>) -> Seq<Option<OutputView>> {
    replies.map_values(|o: Option<CapturedOutput>| option_view(o))
}

/// What mate needs of a package manager.
///
/// Work that takes other processes or the network is split in two: one method
/// says what to ask, another what follows from the answers.
pub trait ManagerAdapter {
    spec fn manager(&self) -> ManagerKind;

    fn kind(&self) -> (r: ManagerKind)
        ensures
            r == self.manager(),
    ;

    spec fn searchable(&self) -> bool;

    /// Whether packages can be searched for.
    fn supports_search(&self) -> (r: bool)
        ensures
            r == self.searchable(),
    ;

    spec fn installable(&self) -> bool;

    /// Whether packages can be installed to stay.
    fn supports_install(&self) -> (r: bool)
        ensures
            r == self.installable(),
    ;

    spec fn fuzzy(&self) -> bool;

    /// Whether a query that found nothing may be replaced by others.
    fn supports_fuzzy_fallback(&self) -> (r: bool)
        ensures
            r == self.fuzzy(),
    ;

    spec fn probes(&self, host: HostView, context: ContextView) -> Seq<RequestView>;

    /// What to run to learn about the instances of the manager.
    fn discovery_requests(&self, host: &Host, context: &ProjectContext) -> (r: Vec<CaptureRequest>)
        ensures
            views(r@) == self.probes(host@, context@),
    ;

    spec fn instances(
        &self,
        host: HostView,
        context: ContextView,
        replies: Seq<Option<OutputView>>,
    ) -> Seq<InstanceView>;

    /// The instances of the manager, given what came of each request; nothing
    /// where that failed.
    fn discover(
        &self,
        host: &Host,
        context: &ProjectContext,
        replies: &Vec<Option<CapturedOutput>>,
    ) -> (r: Vec<ManagerInstance>)
        requires
            replies@.len() == self.probes(host@, context@).len(),
        ensures
            views(r@) == self.instances(host@, context@, replies_view(replies@)),
    ;

    spec fn asks(&self, host: HostView, instance: InstanceView, query: Seq<char>) -> Result<
        SearchRequestView,
        ErrorView,
    >;

    /// What to ask to find `query`.
    fn search_request(&self, host: &Host, instance: &ManagerInstance, query: &str) -> (r: Result<
        SearchRequest,
        Error,
    >)
        ensures
            outcome(r) == self.asks(host@, instance@, query@),
    ;

    spec fn finds(&self, instance: InstanceView, query: Seq<char>, reply: SearchReplyView) -> Result<
        Seq<CandidateView>,
        ErrorView,
    >;

    /// What was found, given the reply.
    fn search(&self, instance: &ManagerInstance, query: &str, reply: &SearchReply) -> (r: Result<
        Vec<Candidate>,
        Error,
    >)
        requires
            fits(self.manager(), reply@),
        ensures
            outcome_list(r) == self.finds(instance@, query@, reply@),
    ;

    spec fn targets(&self, host: HostView, instance: InstanceView, context: ContextView) -> Seq<
        TargetView,
    >;

    /// What an instance can install into.
    fn compatible_targets(
        &self,
        host: &Host,
        instance: &ManagerInstance,
        context: &ProjectContext,
    ) -> (r: Vec<Target>)
        ensures
            views(r@) == self.targets(host@, instance@, context@),
    ;

    spec fn plans(
        &self,
        host: HostView,
        instance: InstanceView,
        packages: Seq<Seq<char>>,
        target: TargetView,
        context: ContextView,
    ) -> Result<Seq<CommandView>, ErrorView>;

    /// The commands that install `packages` into `target`.
    fn plan(
        &self,
        host: &Host,
        instance: &ManagerInstance,
        packages: &Vec<String>,
        target: &Target,
        context: &ProjectContext,
    ) -> (r: Result<Vec<CommandSpec>, Error>)
        ensures
            outcome_list(r) == self.plans(
                host@,
                instance@,
                views(packages@),
                target@,
                context@,
            ),
    ;
}

// ---------------------------------------------------------------------------
// Queries and package ids
// ---------------------------------------------------------------------------

/// How near a package is to the query by its name alone.
pub open spec fn name_score(query: Seq<char>, package: Seq<char>) -> u16 {
    if lower(package) == lower(query) {
        100
    } else if starts_with(lower(package), lower(query)) {
        80
    } else {
        60
    }
}

pub fn score_match(query: &str, package: &str) -> (r: u16)
    ensures
        r == name_score(query@, package@),
{
    if same_ignoring_case(package, query) {
        100
    } else if text_starts_with(text_lower(package).as_str(), text_lower(query).as_str()) {
        80
    } else {
        60
    }
}

/// Whether a text begins with the mark of a command-line option.
pub open spec fn looks_like_option(s: Seq<char>) -> bool {
    s.len() > 0 && s[0] == '-'
}

/// What is wrong with a query, if something is.
pub open spec fn query_verdict(query: Seq<char>) -> Result<(), ErrorView> {
    if is_blank(query) {
        Err(failure(ErrorKind::EmptyQuery, "package query cannot be empty"@))
    } else if looks_like_option(query) {
        Err(
            failure(
                ErrorKind::OptionLikeQuery,
                "package query "@ + debug_text(query) + " looks like a command-line option"@,
            ),
        )
    } else if has_control(query) {
        Err(failure(ErrorKind::ControlInQuery, "package query contains control characters"@))
    } else {
        Ok(())
    }
}

pub fn validate_query(query: &str) -> (r: Result<(), Error>)
    ensures
        verdict(r) == query_verdict(query@),
{
    if text_is_blank(query) {
        return Err(Error::new(ErrorKind::EmptyQuery, "package query cannot be empty"));
    }
    if starts_with_char(query, '-') {
        return Err(
            Error::new(
                ErrorKind::OptionLikeQuery,
                cat3(
                    "package query ",
                    debug_quoted(query).as_str(),
                    " looks like a command-line option",
                ).as_str(),
            ),
        );
    }
    if text_has_control(query) {
        return Err(
            Error::new(ErrorKind::ControlInQuery, "package query contains control characters"),
        );
    }
    Ok(())
}

/// What is wrong with a package id, if something is.
pub open spec fn package_verdict(package: Seq<char>) -> Result<(), ErrorView> {
    if is_blank(package) {
        Err(failure(ErrorKind::EmptyPackageId, "resolved package id cannot be empty"@))
    } else if looks_like_option(package) {
        Err(
            failure(
                ErrorKind::OptionLikePackageId,
                "resolved package id "@ + debug_text(package)
                    + " looks like a command-line option"@,
            ),
        )
    } else if has_control(package) {
        Err(
            failure(
                ErrorKind::ControlInPackageId,
                "resolved package id "@ + debug_text(package) + " contains control characters"@,
            ),
        )
    } else {
        Ok(())
    }
}

pub fn validate_package_id(package: &str) -> (r: Result<(), Error>)
    ensures
        verdict(r) == package_verdict(package@),
{
    if text_is_blank(package) {
        return Err(Error::new(ErrorKind::EmptyPackageId, "resolved package id cannot be empty"));
    }
    if starts_with_char(package, '-') {
        return Err(
            Error::new(
                ErrorKind::OptionLikePackageId,
                cat3(
                    "resolved package id ",
                    debug_quoted(package).as_str(),
                    " looks like a command-line option",
                ).as_str(),
            ),
        );
    }
    if text_has_control(package) {
        return Err(
            Error::new(
                ErrorKind::ControlInPackageId,
                cat3(
                    "resolved package id ",
                    debug_quoted(package).as_str(),
                    " contains control characters",
                ).as_str(),
            ),
        );
    }
    Ok(())
}

// ---------------------------------------------------------------------------
// What adapters share
// ---------------------------------------------------------------------------

/// The targets of one kind.
pub open spec fn of_kind(targets: Seq<TargetView>, kind: TargetKind) -> Seq<TargetView> {
    targets.filter(|target: TargetView| target.kind == kind)
}

pub(crate) fn targets_of_kind(targets: &Vec<Target>, kind: TargetKind) -> (r: Vec<Target>)
    ensures
        views(r@) == of_kind(views(targets@), kind),
{
    targets_of_kinds(targets, kind, kind)
}

/// The targets of two kinds.
pub open spec fn of_kinds(targets: Seq<TargetView>, first: TargetKind, second: TargetKind) -> Seq<
    TargetView,
> {
    targets.filter(|target: TargetView| target.kind == first || target.kind == second)
}

pub(crate) fn targets_of_kinds(targets: &Vec<Target>, first: TargetKind, second: TargetKind) -> (r:
    Vec<Target>)
    ensures
        views(r@) == of_kinds(views(targets@), first, second),
        first == second ==> views(r@) == of_kind(views(targets@), first),
{
    let ghost all = views(targets@);
    let ghost keep = |target: TargetView| target.kind == first || target.kind == second;
    let ghost one = |target: TargetView| target.kind == first;
    let mut r: Vec<Target> = Vec::new();
    let n: usize = targets.len();
    proof {
        reveal(Seq::filter);
        assert(views(r@) =~= all.take(0).filter(keep));
        assert(views(r@) =~= all.take(0).filter(one));
    }
    for i in 0..n
        invariant
            n == targets@.len(),
            all == views(targets@),
            keep == (|target: TargetView| target.kind == first || target.kind == second),
            one == (|target: TargetView| target.kind == first),
            views(r@) == all.take(i as int).filter(keep),
            first == second ==> views(r@) == all.take(i as int).filter(one),
    {
        proof {
            reveal(Seq::filter);
            assert(all.take(i + 1).drop_last() =~= all.take(i as int));
            assert(all.take(i + 1).last() == targets@[i as int]@);
        }
        if targets[i].kind == first || targets[i].kind == second {
            let ghost before = r@;
            let target = targets[i].clone();
            r.push(target);
            proof {
                lemma_views_push(before, target);
            }
        }
    }
    assert(all.take(n as int) =~= all);
    r
}

/// The request for a version of each of some executables.
pub open spec fn version_probes(
    executables: Seq<PathView>,
    prefixes: Seq<Seq<char>>,
    env: Seq<(Seq<char>, Seq<char>)>,
    cwd: Option<PathView>,
) -> Seq<RequestView> {
    executables.map_values(
        |executable: PathView|
            version_request(executable, seq!["--version"@], prefixes, env, cwd),
    )
}

pub(crate) fn probe_versions(
    executables: &Vec<FilePath>,
    prefixes: &Vec<String>,
    env: &Vec<EnvVar>,
    cwd: &Option<FilePath>,
) -> (r: Vec<CaptureRequest>)
    ensures
        views(r@) == version_probes(
            views(executables@),
            views(prefixes@),
            views(env@),
            option_view(*cwd),
        ),
{
    let ghost all = version_probes(
        views(executables@),
        views(prefixes@),
        views(env@),
        option_view(*cwd),
    );
    let mut r: Vec<CaptureRequest> = Vec::new();
    let n: usize = executables.len();
    assert(views(r@) =~= all.take(0));
    for i in 0..n
        invariant
            n == executables@.len(),
            all == version_probes(
                views(executables@),
                views(prefixes@),
                views(env@),
                option_view(*cwd),
            ),
            views(r@) == all.take(i as int),
    {
        let args = list_of(&["--version"]);
        assert(views(args@) =~= seq!["--version"@]);
        let ghost before = r@;
        let request = probe_version_sanitized_in(
            &executables[i],
            args,
            clone_texts(prefixes),
            clone_list(env),
            clone_option_path(cwd),
        );
        r.push(request);
        proof {
            lemma_views_push(before, request);
            assert(all[i as int] == request@);
            assert(views(r@) =~= all.take(i + 1));
        }
    }
    assert(all.take(n as int) =~= all);
    r
}

/// An instance that is an executable without more.
pub open spec fn plain_instance(
    kind: ManagerKind,
    executable: PathView,
    version: Seq<char>,
    scope: ScopeView,
) -> InstanceView {
    InstanceView {
        id: manager_name(kind) + ":"@ + path_text(executable),
        kind,
        executable,
        launcher_args: Seq::empty(),
        version,
        scope,
    }
}

pub(crate) fn make_instance(
    kind: ManagerKind,
    executable: FilePath,
    version: String,
    scope: InstanceScope,
) -> (r: ManagerInstance)
    ensures
        r@ == plain_instance(kind, executable@, version@, scope@),
{
    let launcher_args: Vec<String> = Vec::new();
    assert(views(launcher_args@) =~= Seq::<Seq<char>>::empty());
    ManagerInstance {
        id: cat3(kind.name(), ":", executable.text().as_str()),
        kind,
        executable,
        launcher_args,
        version,
        scope,
    }
}

/// One instance for each of some executables, with the version that it printed.
pub open spec fn plain_instances(
    kind: ManagerKind,
    executables: Seq<PathView>,
    replies: Seq<Option<OutputView>>,
) -> Seq<InstanceView> {
    Seq::new(
        executables.len(),
        |i: int|
            plain_instance(kind, executables[i], version_line(replies[i]), ScopeView::Generic),
    )
}

pub(crate) fn make_instances(
    kind: ManagerKind,
    executables: &Vec<FilePath>,
    replies: &Vec<Option<CapturedOutput>>,
) -> (r: Vec<ManagerInstance>)
    requires
        replies@.len() == executables@.len(),
    ensures
        views(r@) == plain_instances(kind, views(executables@), replies_view(replies@)),
{
    let ghost all = plain_instances(kind, views(executables@), replies_view(replies@));
    let mut r: Vec<ManagerInstance> = Vec::new();
    let n: usize = executables.len();
    assert(views(r@) =~= all.take(0));
    for i in 0..n
        invariant
            n == executables@.len(),
            replies@.len() == n,
            all == plain_instances(kind, views(executables@), replies_view(replies@)),
            views(r@) == all.take(i as int),
    {
        let ghost before = r@;
        let version = version_text(&replies[i]);
        let instance = make_instance(
            kind,
            executables[i].clone(),
            version,
            InstanceScope::Generic,
        );
        r.push(instance);
        proof {
            lemma_views_push(before, instance);
            assert(replies_view(replies@)[i as int] == option_view(replies@[i as int]));
            assert(all[i as int] == instance@);
            assert(views(r@) =~= all.take(i + 1));
        }
    }
    assert(all.take(n as int) =~= all);
    r
}

/// A list of the given path, if there is one.
pub open spec fn at_most_one(path: Option<PathView>) -> Seq<PathView> {
    match path {
        Some(path) => seq![path],
        None => Seq::empty(),
    }
}

pub(crate) fn list_of_option(path: Option<FilePath>) -> (r: Vec<FilePath>)
    ensures
        views(r@) == at_most_one(option_view(path)),
{
    let mut r: Vec<FilePath> = Vec::new();
    if let Some(path) = path {
        r.push(path);
        assert(views(r@) =~= seq![path@]);
    } else {
        assert(views(r@) =~= Seq::<PathView>::empty());
    }
    r
}

/// What a manager calls `n` packages in the label of a step.
pub open spec fn batch_label(verb: Seq<char>, n: nat) -> Seq<char> {
    verb + decimal(n) + " package(s)"@
}

pub(crate) fn label_batch(verb: &str, n: usize) -> (r: String)
    ensures
        r@ == batch_label(verb@, n as nat),
{
    cat3(verb, decimal_text(n).as_str(), " package(s)")
}

/// The error for a search command that did not succeed.
pub open spec fn search_failure(output: OutputView) -> ErrorView {
    failure(ErrorKind::SearchFailed, diagnostic(trim(output.stderr)))
}

/// A query can be asked if and only if something but whitespace stands in it, it does
/// not begin with a hyphen and holds no control character; what is wrong first counts.
pub proof fn law_query_is_a_word(query: Seq<char>)
    ensures
        ({
            let blank = forall|i: int| 0 <= i < query.len() ==> is_whitespace(#[trigger] query[i]);
            let controls = exists|i: int| 0 <= i < query.len() && is_control(#[trigger] query[i]);
            &&& blank ==> (query_verdict(query) matches Err(e) && e.kind == ErrorKind::EmptyQuery)
            &&& !blank && query[0] == '-' ==> (query_verdict(query) matches Err(e) && e.kind
                == ErrorKind::OptionLikeQuery)
            &&& !blank && query[0] != '-' && controls ==> (query_verdict(query) matches Err(e)
                && e.kind == ErrorKind::ControlInQuery)
            &&& !blank && query[0] != '-' && !controls ==> query_verdict(query) is Ok
        }),
{
}

/// A package id can be told to a manager if and only if something but whitespace stands
/// in it, it does not begin with a hyphen and holds no control character; what is wrong
/// first counts.
pub proof fn law_package_id_is_a_word(package: Seq<char>)
    ensures
        ({
            let blank = forall|i: int|
                0 <= i < package.len() ==> is_whitespace(#[trigger] package[i]);
            let controls = exists|i: int|
                0 <= i < package.len() && is_control(#[trigger] package[i]);
            &&& blank ==> (package_verdict(package) matches Err(e) && e.kind
                == ErrorKind::EmptyPackageId)
            &&& !blank && package[0] == '-' ==> (package_verdict(package) matches Err(e) && e.kind
                == ErrorKind::OptionLikePackageId)
            &&& !blank && package[0] != '-' && controls ==> (package_verdict(package) matches Err(e)
                && e.kind == ErrorKind::ControlInPackageId)
            &&& !blank && package[0] != '-' && !controls ==> package_verdict(package) is Ok
        }),
{
}

/// A package that is named as the query scores higher than one whose name the query
/// begins, and that higher than any other; the case of letters does not matter.
pub proof fn law_nearer_name_scores_higher(query: Seq<char>, package: Seq<char>)
    ensures
        lower(package) == lower(query) <==> name_score(query, package) == 100,
        lower(package) != lower(query) && starts_with(lower(package), lower(query))
            <==> name_score(query, package) == 80,
        !starts_with(lower(package), lower(query)) <==> name_score(query, package) == 60,
{
    assert(lower(query).take(lower(query).len() as int) =~= lower(query));
}

/// The targets of a kind are those targets that are of the kind, in their order: a
/// target more adds itself at the end if it is of the kind.
pub proof fn law_targets_of_a_kind(
    targets: Seq<TargetView>,
    more: TargetView,
    first: TargetKind,
    second: TargetKind,
)
    ensures
        of_kind(Seq::empty(), first) == Seq::<TargetView>::empty(),
        of_kind(targets.push(more), first) == if more.kind == first {
            of_kind(targets, first).push(more)
        } else {
            of_kind(targets, first)
        },
        of_kinds(Seq::empty(), first, second) == Seq::<TargetView>::empty(),
        of_kinds(targets.push(more), first, second) == if more.kind == first || more.kind == second {
            of_kinds(targets, first, second).push(more)
        } else {
            of_kinds(targets, first, second)
        },
{
    reveal(Seq::filter);
    assert(targets.push(more).drop_last() =~= targets);
}

/// To find the version of an executable, that executable is run with `--version`.
pub proof fn law_version_is_asked_of_each(
    executables: Seq<PathView>,
    prefixes: Seq<Seq<char>>,
    env: Seq<(Seq<char>, Seq<char>)>,
    cwd: Option<PathView>,
)
    ensures
        ({
            let requests = version_probes(executables, prefixes, env, cwd);
            &&& requests.len() == executables.len()
            &&& forall|i: int|
                0 <= i < requests.len() ==> {
                    &&& (#[trigger] requests[i]).program == executables[i]
                    &&& requests[i].args == seq!["--version"@]
                    &&& requests[i].env_remove_prefixes == prefixes
                    &&& requests[i].env == env
                    &&& requests[i].cwd == cwd
                    &&& requests[i].seconds == 4
                    &&& requests[i].limit == 65_536
                }
        }),
{
}

/// Each executable that was found is one instance: told by the manager and its path,
/// run by that path without more arguments, of the version that it printed.
pub proof fn law_each_executable_is_an_instance(
    kind: ManagerKind,
    executables: Seq<PathView>,
    replies: Seq<Option<OutputView>>,
)
    ensures
        ({
            let instances = plain_instances(kind, executables, replies);
            &&& instances.len() == executables.len()
            &&& forall|i: int|
                0 <= i < instances.len() ==> {
                    &&& (#[trigger] instances[i]).kind == kind
                    &&& instances[i].executable == executables[i]
                    &&& instances[i].launcher_args.len() == 0
                    &&& instances[i].id == manager_name(kind) + ":"@ + path_text(executables[i])
                    &&& instances[i].version == version_line(replies[i])
                    &&& instances[i].scope == ScopeView::Generic
                }
        }),
{
}

/// Only one reply fits each manager: the registries of Cargo and of Python reply in
/// their own ways, and every other manager by what it prints.
pub proof fn law_reply_fits_the_manager(kind: ManagerKind, reply: SearchReplyView)
    ensures
        fits(kind, reply) ==> {
            &&& reply is Crates <==> kind == ManagerKind::Cargo
            &&& reply is Pypi <==> kind == ManagerKind::Pip || kind == ManagerKind::Uv
        },
{
}

} // verus!
