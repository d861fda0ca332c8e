//! The managers that mate knows.

use std::cmp::Ordering;

use vstd::prelude::*;

use crate::adapters::{
    ManagerAdapter, of_kinds, SearchReply, SearchReplyView, SearchRequest, SearchRequestView,
};
use crate::adapters::apt::AptAdapter;
use crate::adapters::brew::BrewAdapter;
use crate::adapters::lang::cargo::CargoAdapter;
use crate::adapters::lang::node::npm::NpmAdapter;
use crate::adapters::lang::node::npx::NpxAdapter;
use crate::adapters::lang::pip::PipAdapter;
use crate::adapters::lang::uv::UvAdapter;
use crate::adapters::pacman::PacmanAdapter;
use crate::context::{ContextView, ProjectContext};
use crate::error::{
    debug_quoted, debug_text, Error, error_text, ErrorKind, ErrorView, failure, outcome,
    outcome_list, verdict,
};
use crate::host::{Host, HostView};
use crate::model::{
    Candidate, CandidateView, CommandSpec, CommandView, env_of, env_ordered, InstanceView,
    law_env_of_ordered, manager_name, manager_rank, ManagerInstance, ManagerKind, Target,
    TargetKind, TargetView,
};
use crate::order::{
    codes, compare_number, compare_text, insert_sorted, key_leq, key_order, lemma_key_order_step,
    sort_by_view, sorted_insert, stable_sort, word_order,
};
use crate::path::path_exact;
use crate::process::{CaptureRequest, CapturedOutput, OutputView, RequestView};
use crate::text::{cat2, cat3, cat5, join, join_texts, views};

verus! {

broadcast use crate::text::group_views;

/// One of the managers that mate knows.
#[derive(Debug, Clone, Copy, PartialEq, Eq, Structural)]
pub enum Adapter {
    Apt(AptAdapter),
    Pacman(PacmanAdapter),
    Brew(BrewAdapter),
    Cargo(CargoAdapter),
    Pip(PipAdapter),
    Uv(UvAdapter),
    Npm(NpmAdapter),
    Npx(NpxAdapter),
}

impl ManagerAdapter for Adapter {
    open spec fn manager(&self) -> ManagerKind {
        match self {
            Adapter::Apt(a) => a.manager(),
            Adapter::Pacman(a) => a.manager(),
            Adapter::Brew(a) => a.manager(),
            Adapter::Cargo(a) => a.manager(),
            Adapter::Pip(a) => a.manager(),
            Adapter::Uv(a) => a.manager(),
            Adapter::Npm(a) => a.manager(),
            Adapter::Npx(a) => a.manager(),
        }
    }

    fn kind(&self) -> (r: ManagerKind) {
        match self {
            Adapter::Apt(a) => a.kind(),
            Adapter::Pacman(a) => a.kind(),
            Adapter::Brew(a) => a.kind(),
            Adapter::Cargo(a) => a.kind(),
            Adapter::Pip(a) => a.kind(),
            Adapter::Uv(a) => a.kind(),
            Adapter::Npm(a) => a.kind(),
            Adapter::Npx(a) => a.kind(),
        }
    }

    open spec fn searchable(&self) -> bool {
        match self {
            Adapter::Apt(a) => a.searchable(),
            Adapter::Pacman(a) => a.searchable(),
            Adapter::Brew(a) => a.searchable(),
            Adapter::Cargo(a) => a.searchable(),
            Adapter::Pip(a) => a.searchable(),
            Adapter::Uv(a) => a.searchable(),
            Adapter::Npm(a) => a.searchable(),
            Adapter::Npx(a) => a.searchable(),
        }
    }

    fn supports_search(&self) -> (r: bool) {
        match self {
            Adapter::Apt(a) => a.supports_search(),
            Adapter::Pacman(a) => a.supports_search(),
            Adapter::Brew(a) => a.supports_search(),
            Adapter::Cargo(a) => a.supports_search(),
            Adapter::Pip(a) => a.supports_search(),
            Adapter::Uv(a) => a.supports_search(),
            Adapter::Npm(a) => a.supports_search(),
            Adapter::Npx(a) => a.supports_search(),
        }
    }

    open spec fn installable(&self) -> bool {
        match self {
            Adapter::Apt(a) => a.installable(),
            Adapter::Pacman(a) => a.installable(),
            Adapter::Brew(a) => a.installable(),
            Adapter::Cargo(a) => a.installable(),
            Adapter::Pip(a) => a.installable(),
            Adapter::Uv(a) => a.installable(),
            Adapter::Npm(a) => a.installable(),
            Adapter::Npx(a) => a.installable(),
        }
    }

    fn supports_install(&self) -> (r: bool) {
        match self {
            Adapter::Apt(a) => a.supports_install(),
            Adapter::Pacman(a) => a.supports_install(),
            Adapter::Brew(a) => a.supports_install(),
            Adapter::Cargo(a) => a.supports_install(),
            Adapter::Pip(a) => a.supports_install(),
            Adapter::Uv(a) => a.supports_install(),
            Adapter::Npm(a) => a.supports_install(),
            Adapter::Npx(a) => a.supports_install(),
        }
    }

    open spec fn fuzzy(&self) -> bool {
        match self {
            Adapter::Apt(a) => a.fuzzy(),
            Adapter::Pacman(a) => a.fuzzy(),
            Adapter::Brew(a) => a.fuzzy(),
            Adapter::Cargo(a) => a.fuzzy(),
            Adapter::Pip(a) => a.fuzzy(),
            Adapter::Uv(a) => a.fuzzy(),
            Adapter::Npm(a) => a.fuzzy(),
            Adapter::Npx(a) => a.fuzzy(),
        }
    }

    fn supports_fuzzy_fallback(&self) -> (r: bool) {
        match self {
            Adapter::Apt(a) => a.supports_fuzzy_fallback(),
            Adapter::Pacman(a) => a.supports_fuzzy_fallback(),
            Adapter::Brew(a) => a.supports_fuzzy_fallback(),
            Adapter::Cargo(a) => a.supports_fuzzy_fallback(),
            Adapter::Pip(a) => a.supports_fuzzy_fallback(),
            Adapter::Uv(a) => a.supports_fuzzy_fallback(),
            Adapter::Npm(a) => a.supports_fuzzy_fallback(),
            Adapter::Npx(a) => a.supports_fuzzy_fallback(),
        }
    }

    open spec fn probes(&self, host: HostView, context: ContextView) -> Seq<RequestView> {
        match self {
            Adapter::Apt(a) => a.probes(host, context),
            Adapter::Pacman(a) => a.probes(host, context),
            Adapter::Brew(a) => a.probes(host, context),
            Adapter::Cargo(a) => a.probes(host, context),
            Adapter::Pip(a) => a.probes(host, context),
            Adapter::Uv(a) => a.probes(host, context),
            Adapter::Npm(a) => a.probes(host, context),
            Adapter::Npx(a) => a.probes(host, context),
        }
    }

    fn discovery_requests(&self, host: &Host, context: &ProjectContext) -> (r: Vec<CaptureRequest>) {
        match self {
            Adapter::Apt(a) => a.discovery_requests(host, context),
            Adapter::Pacman(a) => a.discovery_requests(host, context),
            Adapter::Brew(a) => a.discovery_requests(host, context),
            Adapter::Cargo(a) => a.discovery_requests(host, context),
            Adapter::Pip(a) => a.discovery_requests(host, context),
            Adapter::Uv(a) => a.discovery_requests(host, context),
            Adapter::Npm(a) => a.discovery_requests(host, context),
            Adapter::Npx(a) => a.discovery_requests(host, context),
        }
    }

    open spec fn instances(
        &self,
        host: HostView,
        context: ContextView,
        replies: Seq<Option<OutputView>>,
    ) -> Seq<InstanceView> {
        match self {
            Adapter::Apt(a) => a.instances(host, context, replies),
            Adapter::Pacman(a) => a.instances(host, context, replies),
            Adapter::Brew(a) => a.instances(host, context, replies),
            Adapter::Cargo(a) => a.instances(host, context, replies),
            Adapter::Pip(a) => a.instances(host, context, replies),
            Adapter::Uv(a) => a.instances(host, context, replies),
            Adapter::Npm(a) => a.instances(host, context, replies),
            Adapter::Npx(a) => a.instances(host, context, replies),
        }
    }

    fn discover(
        &self,
        host: &Host,
        context: &ProjectContext,
        replies: &Vec<Option<CapturedOutput>>,
    ) -> (r: Vec<ManagerInstance>) {
        match self {
            Adapter::Apt(a) => a.discover(host, context, replies),
            Adapter::Pacman(a) => a.discover(host, context, replies),
            Adapter::Brew(a) => a.discover(host, context, replies),
            Adapter::Cargo(a) => a.discover(host, context, replies),
            Adapter::Pip(a) => a.discover(host, context, replies),
            Adapter::Uv(a) => a.discover(host, context, replies),
            Adapter::Npm(a) => a.discover(host, context, replies),
            Adapter::Npx(a) => a.discover(host, context, replies),
        }
    }

    open spec fn asks(&self, host: HostView, instance: InstanceView, query: Seq<char>) -> Result<
        SearchRequestView,
        ErrorView,
    > {
        match self {
            Adapter::Apt(a) => a.asks(host, instance, query),
            Adapter::Pacman(a) => a.asks(host, instance, query),
            Adapter::Brew(a) => a.asks(host, instance, query),
            Adapter::Cargo(a) => a.asks(host, instance, query),
            Adapter::Pip(a) => a.asks(host, instance, query),
            Adapter::Uv(a) => a.asks(host, instance, query),
            Adapter::Npm(a) => a.asks(host, instance, query),
            Adapter::Npx(a) => a.asks(host, instance, query),
        }
    }

    fn search_request(&self, host: &Host, instance: &ManagerInstance, query: &str) -> (r: Result<
        SearchRequest,
        Error,
    >) {
        match self {
            Adapter::Apt(a) => a.search_request(host, instance, query),
            Adapter::Pacman(a) => a.search_request(host, instance, query),
            Adapter::Brew(a) => a.search_request(host, instance, query),
            Adapter::Cargo(a) => a.search_request(host, instance, query),
            Adapter::Pip(a) => a.search_request(host, instance, query),
            Adapter::Uv(a) => a.search_request(host, instance, query),
            Adapter::Npm(a) => a.search_request(host, instance, query),
            Adapter::Npx(a) => a.search_request(host, instance, query),
        }
    }

    open spec fn finds(&self, instance: InstanceView, query: Seq<char>, reply: SearchReplyView) -> Result<
        Seq<CandidateView>,
        ErrorView,
    > {
        match self {
            Adapter::Apt(a) => a.finds(instance, query, reply),
            Adapter::Pacman(a) => a.finds(instance, query, reply),
            Adapter::Brew(a) => a.finds(instance, query, reply),
            Adapter::Cargo(a) => a.finds(instance, query, reply),
            Adapter::Pip(a) => a.finds(instance, query, reply),
            Adapter::Uv(a) => a.finds(instance, query, reply),
            Adapter::Npm(a) => a.finds(instance, query, reply),
            Adapter::Npx(a) => a.finds(instance, query, reply),
        }
    }

    fn search(&self, instance: &ManagerInstance, query: &str, reply: &SearchReply) -> (r: Result<
        Vec<Candidate>,
        Error,
    >) {
        match self {
            Adapter::Apt(a) => a.search(instance, query, reply),
            Adapter::Pacman(a) => a.search(instance, query, reply),
            Adapter::Brew(a) => a.search(instance, query, reply),
            Adapter::Cargo(a) => a.search(instance, query, reply),
            Adapter::Pip(a) => a.search(instance, query, reply),
            Adapter::Uv(a) => a.search(instance, query, reply),
            Adapter::Npm(a) => a.search(instance, query, reply),
            Adapter::Npx(a) => a.search(instance, query, reply),
        }
    }

    open spec fn targets(&self, host: HostView, instance: InstanceView, context: ContextView) -> Seq<
        TargetView,
    > {
        match self {
            Adapter::Apt(a) => a.targets(host, instance, context),
            Adapter::Pacman(a) => a.targets(host, instance, context),
            Adapter::Brew(a) => a.targets(host, instance, context),
            Adapter::Cargo(a) => a.targets(host, instance, context),
            Adapter::Pip(a) => a.targets(host, instance, context),
            Adapter::Uv(a) => a.targets(host, instance, context),
            Adapter::Npm(a) => a.targets(host, instance, context),
            Adapter::Npx(a) => a.targets(host, instance, context),
        }
    }

    fn compatible_targets(
        &self,
        host: &Host,
        instance: &ManagerInstance,
        context: &ProjectContext,
    ) -> (r: Vec<Target>) {
        match self {
            Adapter::Apt(a) => a.compatible_targets(host, instance, context),
            Adapter::Pacman(a) => a.compatible_targets(host, instance, context),
            Adapter::Brew(a) => a.compatible_targets(host, instance, context),
            Adapter::Cargo(a) => a.compatible_targets(host, instance, context),
            Adapter::Pip(a) => a.compatible_targets(host, instance, context),
            Adapter::Uv(a) => a.compatible_targets(host, instance, context),
            Adapter::Npm(a) => a.compatible_targets(host, instance, context),
            Adapter::Npx(a) => a.compatible_targets(host, instance, context),
        }
    }

    open spec fn plans(
        &self,
        host: HostView,
        instance: InstanceView,
        packages: Seq<Seq<char>>,
        target: TargetView,
        context: ContextView,
    ) -> Result<Seq<CommandView>, ErrorView> {
        match self {
            Adapter::Apt(a) => a.plans(host, instance, packages, target, context),
            Adapter::Pacman(a) => a.plans(host, instance, packages, target, context),
            Adapter::Brew(a) => a.plans(host, instance, packages, target, context),
            Adapter::Cargo(a) => a.plans(host, instance, packages, target, context),
            Adapter::Pip(a) => a.plans(host, instance, packages, target, context),
            Adapter::Uv(a) => a.plans(host, instance, packages, target, context),
            Adapter::Npm(a) => a.plans(host, instance, packages, target, context),
            Adapter::Npx(a) => a.plans(host, instance, packages, target, context),
        }
    }

    fn plan(
        &self,
        host: &Host,
        instance: &ManagerInstance,
        packages: &Vec<String>,
        target: &Target,
        context: &ProjectContext,
    ) -> (r: Result<Vec<CommandSpec>, Error>) {
        match self {
            Adapter::Apt(a) => a.plan(host, instance, packages, target, context),
            Adapter::Pacman(a) => a.plan(host, instance, packages, target, context),
            Adapter::Brew(a) => a.plan(host, instance, packages, target, context),
            Adapter::Cargo(a) => a.plan(host, instance, packages, target, context),
            Adapter::Pip(a) => a.plan(host, instance, packages, target, context),
            Adapter::Uv(a) => a.plan(host, instance, packages, target, context),
            Adapter::Npm(a) => a.plan(host, instance, packages, target, context),
            Adapter::Npx(a) => a.plan(host, instance, packages, target, context),
        }
    }
}

/// The managers that are at hand.
#[derive(Debug)]
pub struct Registry {
    pub adapters: Vec<Adapter>,
}

impl View for Registry {
    type V = Seq<Adapter>;

    open spec fn view(&self) -> Seq<Adapter> {
        self.adapters@
    }
}

/// All managers that mate knows.
pub open spec fn standard_adapters() -> Seq<Adapter> {
    seq![
        Adapter::Apt(AptAdapter),
        Adapter::Pacman(PacmanAdapter),
        Adapter::Brew(BrewAdapter),
        Adapter::Cargo(CargoAdapter),
        Adapter::Pip(PipAdapter),
        Adapter::Uv(UvAdapter),
        Adapter::Npm(NpmAdapter),
        Adapter::Npx(NpxAdapter),
    ]
}

/// The first manager of a kind.
pub open spec fn find_adapter(adapters: Seq<Adapter>, kind: ManagerKind) -> Option<Adapter>
    decreases adapters.len(),
{
    if adapters.len() == 0 {
        None
    } else if adapters[0].manager() == kind {
        Some(adapters[0])
    } else {
        find_adapter(adapters.drop_first(), kind)
    }
}

pub open spec fn no_adapter(kind: ManagerKind) -> ErrorView {
    failure(ErrorKind::NoAdapter, "no adapter registered for "@ + manager_name(kind))
}

/// The first manager of a kind, or the error that there is none.
pub open spec fn registered(adapters: Seq<Adapter>, kind: ManagerKind) -> Result<
    Adapter,
    ErrorView,
> {
    match find_adapter(adapters, kind) {
        Some(adapter) => Ok(adapter),
        None => Err(no_adapter(kind)),
    }
}

/// Whether a manager can do what is asked of it.
pub open spec fn capable(adapter: Adapter, searching: bool) -> bool {
    if searching {
        adapter.searchable()
    } else {
        adapter.installable()
    }
}

/// The names of those of `requested` that cannot do what is asked of them.
pub open spec fn incapable(
    adapters: Seq<Adapter>,
    requested: Seq<ManagerKind>,
    searching: bool,
) -> Seq<Seq<char>>
    decreases requested.len(),
{
    if requested.len() == 0 {
        Seq::empty()
    } else {
        let rest = incapable(adapters, requested.drop_last(), searching);
        match find_adapter(adapters, requested.last()) {
            Some(adapter) => if capable(adapter, searching) {
                rest
            } else {
                rest.push(manager_name(requested.last()))
            },
            None => rest,
        }
    }
}

/// What is wrong with a request for managers, if something is.
pub open spec fn capability_verdict(
    adapters: Seq<Adapter>,
    requested: Seq<ManagerKind>,
    searching: bool,
) -> Result<(), ErrorView> {
    let unsupported = incapable(adapters, requested, searching);
    if unsupported.len() == 0 {
        Ok(())
    } else {
        Err(
            failure(
                ErrorKind::UnsupportedOperation,
                join(unsupported, ", "@) + " cannot be used with `mate "@ + if searching {
                    "search"@
                } else {
                    "install"@
                }
                    + "`: it executes package binaries instead of persistently installing them; use npm for installation"@,
            ),
        )
    }
}

/// Whether a list of kinds holds `kind`.
pub fn has_kind(list: &Vec<ManagerKind>, kind: ManagerKind) -> (r: bool)
    ensures
        r == list@.contains(kind),
{
    let n: usize = list.len();
    for i in 0..n
        invariant
            n == list@.len(),
            forall|j: int| 0 <= j < i ==> list@[j] != kind,
    {
        if list[i] == kind {
            return true;
        }
    }
    false
}

// ---------------------------------------------------------------------------
// Discovery
// ---------------------------------------------------------------------------

/// Those of `adapters` that are asked for; all, if none is named.
pub open spec fn chosen(adapters: Seq<Adapter>, filter: Seq<ManagerKind>) -> Seq<Adapter>
    decreases adapters.len(),
{
    if adapters.len() == 0 {
        Seq::empty()
    } else {
        let rest = chosen(adapters.drop_last(), filter);
        if filter.len() == 0 || filter.contains(adapters.last().manager()) {
            rest.push(adapters.last())
        } else {
            rest
        }
    }
}

/// What came of the discovery of one manager.
#[derive(Debug)]
pub struct Discovery {
    pub kind: ManagerKind,
    pub result: Result<Vec<ManagerInstance>, Error>,
}

pub struct DiscoveryView {
    pub kind: ManagerKind,
    pub result: Result<Seq<InstanceView>, ErrorView>,
}

impl View for Discovery {
    type V = DiscoveryView;

    open spec fn view(&self) -> DiscoveryView {
        DiscoveryView { kind: self.kind, result: outcome_list(self.result) }
    }
}

/// All instances that were discovered.
pub open spec fn all_instances(results: Seq<DiscoveryView>) -> Seq<InstanceView>
    decreases results.len(),
{
    if results.len() == 0 {
        Seq::empty()
    } else {
        match results.last().result {
            Ok(found) => all_instances(results.drop_last()) + found,
            Err(_) => all_instances(results.drop_last()),
        }
    }
}

/// What went wrong in discovery.
pub open spec fn discovery_warnings(results: Seq<DiscoveryView>) -> Seq<Seq<char>>
    decreases results.len(),
{
    if results.len() == 0 {
        Seq::empty()
    } else {
        match results.last().result {
            Ok(_) => discovery_warnings(results.drop_last()),
            Err(e) => discovery_warnings(results.drop_last()).push(
                manager_name(results.last().kind) + ": "@ + error_text(e),
            ),
        }
    }
}

pub open spec fn instance_leq(a: InstanceView, b: InstanceView) -> bool {
    crate::order::text_order(a.id, b.id) != Ordering::Greater
}

/// Instances in the order of their ids.
pub open spec fn sorted_instances(instances: Seq<InstanceView>) -> Seq<InstanceView> {
    stable_sort(instances, |a: InstanceView, b: InstanceView| instance_leq(a, b))
}

fn instance_first(a: &ManagerInstance, b: &ManagerInstance) -> (r: bool)
    ensures
        r == instance_leq(a@, b@),
{
    match compare_text(a.id.as_str(), b.id.as_str()) {
        Ordering::Greater => false,
        _ => true,
    }
}

// ---------------------------------------------------------------------------
// Search
// ---------------------------------------------------------------------------

/// A query for one instance, and what to ask.
#[derive(Debug)]
pub struct SearchJob {
    pub adapter: Adapter,
    pub instance: ManagerInstance,
    pub query: String,
    pub request: Result<SearchRequest, Error>,
}

pub struct JobView {
    pub adapter: Adapter,
    pub instance: InstanceView,
    pub query: Seq<char>,
    pub request: Result<SearchRequestView, ErrorView>,
}

impl View for SearchJob {
    type V = JobView;

    open spec fn view(&self) -> JobView {
        JobView {
            adapter: self.adapter,
            instance: self.instance@,
            query: self.query@,
            request: outcome(self.request),
        }
    }
}

/// The jobs for one instance.
pub open spec fn instance_jobs(
    host: HostView,
    adapter: Adapter,
    instance: InstanceView,
    queries: Seq<Seq<char>>,
) -> Seq<JobView> {
    queries.map_values(
        |query: Seq<char>|
            JobView { adapter, instance, query, request: adapter.asks(host, instance, query) },
    )
}

/// The jobs for all instances that can be searched; if there are queries and some
/// instance belongs to no manager, the error that says so.
pub open spec fn jobs(
    host: HostView,
    adapters: Seq<Adapter>,
    instances: Seq<InstanceView>,
    queries: Seq<Seq<char>>,
) -> Result<Seq<JobView>, ErrorView>
    decreases instances.len(),
{
    if instances.len() == 0 || queries.len() == 0 {
        Ok(Seq::empty())
    } else {
        match jobs(host, adapters, instances.drop_last(), queries) {
            Err(e) => Err(e),
            Ok(before) => match registered(adapters, instances.last().kind) {
                Err(e) => Err(e),
                Ok(adapter) => if adapter.searchable() {
                    Ok(before + instance_jobs(host, adapter, instances.last(), queries))
                } else {
                    Ok(before)
                },
            },
        }
    }
}

proof fn lemma_jobs_stop(
    host: HostView,
    adapters: Seq<Adapter>,
    instances: Seq<InstanceView>,
    queries: Seq<Seq<char>>,
    n: int,
)
    requires
        0 <= n <= instances.len(),
        jobs(host, adapters, instances.take(n), queries) is Err,
    ensures
        jobs(host, adapters, instances, queries) == jobs(
            host,
            adapters,
            instances.take(n),
            queries,
        ),
    decreases instances.len() - n,
{
    if n < instances.len() {
        assert(instances.take(n + 1).drop_last() =~= instances.take(n));
        lemma_jobs_stop(host, adapters, instances, queries, n + 1);
    } else {
        assert(instances.take(n) =~= instances);
    }
}

/// What came of one job.
#[derive(Debug)]
pub struct SearchOutcome {
    pub instance_id: String,
    pub query: String,
    pub result: Result<Vec<Candidate>, Error>,
}

pub struct SearchOutcomeView {
    pub instance_id: Seq<char>,
    pub query: Seq<char>,
    pub result: Result<Seq<CandidateView>, ErrorView>,
}

impl View for SearchOutcome {
    type V = SearchOutcomeView;

    open spec fn view(&self) -> SearchOutcomeView {
        SearchOutcomeView {
            instance_id: self.instance_id@,
            query: self.query@,
            result: outcome_list(self.result),
        }
    }
}

/// All candidates that were found.
pub open spec fn all_candidates(results: Seq<SearchOutcomeView>) -> Seq<CandidateView>
    decreases results.len(),
{
    if results.len() == 0 {
        Seq::empty()
    } else {
        match results.last().result {
            Ok(found) => all_candidates(results.drop_last()) + found,
            Err(_) => all_candidates(results.drop_last()),
        }
    }
}

pub open spec fn search_warning(outcome: SearchOutcomeView, e: ErrorView) -> Seq<char> {
    outcome.instance_id + ", query "@ + debug_text(outcome.query) + ": "@ + error_text(e)
}

/// What went wrong in the search, each thing once, in order.
pub open spec fn search_warnings(results: Seq<SearchOutcomeView>) -> Seq<Seq<char>>
    decreases results.len(),
{
    if results.len() == 0 {
        Seq::empty()
    } else {
        match results.last().result {
            Ok(_) => search_warnings(results.drop_last()),
            Err(e) => sorted_insert(
                search_warnings(results.drop_last()),
                search_warning(results.last(), e),
            ),
        }
    }
}

/// What candidates of a search are ordered by: the query, the score from the
/// highest down, the manager, the package.
pub open spec fn found_key(c: CandidateView) -> Seq<Seq<int>> {
    seq![codes(c.query)] + (seq![seq![0 - c.score]] + (seq![seq![manager_rank(c.manager)]] + (seq![
        codes(c.package),
    ] + Seq::empty())))
}

pub open spec fn found_leq(a: CandidateView, b: CandidateView) -> bool {
    key_leq(found_key(a), found_key(b))
}

/// The candidates of a search in their order.
pub open spec fn sorted_found(candidates: Seq<CandidateView>) -> Seq<CandidateView> {
    stable_sort(candidates, |a: CandidateView, b: CandidateView| found_leq(a, b))
}

proof fn lemma_found_key(a: CandidateView, b: CandidateView)
    ensures
        key_order(found_key(a), found_key(b)) == {
            let query = word_order(codes(a.query), codes(b.query));
            let score = word_order(seq![0 - a.score], seq![0 - b.score]);
            let manager = word_order(seq![manager_rank(a.manager)], seq![manager_rank(b.manager)]);
            if query != Ordering::Equal {
                query
            } else if score != Ordering::Equal {
                score
            } else if manager != Ordering::Equal {
                manager
            } else {
                word_order(codes(a.package), codes(b.package))
            }
        },
{
    let end: Seq<Seq<int>> = Seq::empty();
    let a4 = seq![codes(a.package)] + end;
    let b4 = seq![codes(b.package)] + end;
    let a3 = seq![seq![manager_rank(a.manager)]] + a4;
    let b3 = seq![seq![manager_rank(b.manager)]] + b4;
    let a2 = seq![seq![0 - a.score]] + a3;
    let b2 = seq![seq![0 - b.score]] + b3;
    lemma_key_order_step(codes(a.query), a2, codes(b.query), b2);
    lemma_key_order_step(seq![0 - a.score], a3, seq![0 - b.score], b3);
    lemma_key_order_step(seq![manager_rank(a.manager)], a4, seq![manager_rank(b.manager)], b4);
    lemma_key_order_step(codes(a.package), end, codes(b.package), end);
}

fn found_first(a: &Candidate, b: &Candidate) -> (r: bool)
    ensures
        r == found_leq(a@, b@),
{
    proof {
        lemma_found_key(a@, b@);
    }
    match compare_text(a.query.as_str(), b.query.as_str()) {
        Ordering::Equal => {},
        Ordering::Less => {
            return true;
        },
        Ordering::Greater => {
            return false;
        },
    }
    match compare_number(b.score, a.score) {
        Ordering::Equal => {},
        Ordering::Less => {
            return true;
        },
        Ordering::Greater => {
            return false;
        },
    }
    match compare_number(a.manager.rank(), b.manager.rank()) {
        Ordering::Equal => {},
        Ordering::Less => {
            return true;
        },
        Ordering::Greater => {
            return false;
        },
    }
    match compare_text(a.package.as_str(), b.package.as_str()) {
        Ordering::Greater => false,
        _ => true,
    }
}

fn append_candidates(list: &mut Vec<Candidate>, more: &Vec<Candidate>)
    ensures
        views(final(list)@) == views(old(list)@) + views(more@),
{
    let ghost start = views(list@);
    let ghost all = views(more@);
    let n: usize = more.len();
    assert(views(list@) =~= start + all.take(0));
    for i in 0..n
        invariant
            n == more@.len(),
            all == views(more@),
            views(list@) == start + all.take(i + 0),
    {
        list.push(more[i].clone());
        assert(views(list@) =~= start + all.take(i + 1));
    }
    assert(all.take(n + 0) =~= all);
}

fn append_instances(list: &mut Vec<ManagerInstance>, more: &Vec<ManagerInstance>)
    ensures
        views(final(list)@) == views(old(list)@) + views(more@),
{
    let ghost start = views(list@);
    let ghost all = views(more@);
    let n: usize = more.len();
    assert(views(list@) =~= start + all.take(0));
    for i in 0..n
        invariant
            n == more@.len(),
            all == views(more@),
            views(list@) == start + all.take(i + 0),
    {
        list.push(more[i].clone());
        assert(views(list@) =~= start + all.take(i + 1));
    }
    assert(all.take(n + 0) =~= all);
}

impl Registry {
    pub fn standard() -> (r: Registry)
        ensures
            r@ == standard_adapters(),
    {
        let mut adapters: Vec<Adapter> = Vec::new();
        adapters.push(Adapter::Apt(AptAdapter));
        adapters.push(Adapter::Pacman(PacmanAdapter));
        adapters.push(Adapter::Brew(BrewAdapter));
        adapters.push(Adapter::Cargo(CargoAdapter));
        adapters.push(Adapter::Pip(PipAdapter));
        adapters.push(Adapter::Uv(UvAdapter));
        adapters.push(Adapter::Npm(NpmAdapter));
        adapters.push(Adapter::Npx(NpxAdapter));
        assert(adapters@ =~= standard_adapters());
        Registry { adapters }
    }

    pub fn adapter(&self, kind: ManagerKind) -> (r: Result<Adapter, Error>)
        ensures
            match r {
                Ok(adapter) => registered(self@, kind) == Ok::<Adapter, ErrorView>(adapter),
                Err(e) => registered(self@, kind) == Err::<Adapter, ErrorView>(e@),
            },
    {
        let ghost all = self@;
        let n: usize = self.adapters.len();
        let mut i: usize = 0;
        assert(all.skip(0) =~= all);
        while i < n
            invariant
                n == self.adapters@.len(),
                all == self.adapters@,
                i <= n,
                find_adapter(all, kind) == find_adapter(all.skip(i as int), kind),
            decreases n - i,
        {
            assert(all.skip(i as int)[0] == all[i as int]);
            assert(all.skip(i as int).drop_first() =~= all.skip(i + 1));
            if self.adapters[i].kind() == kind {
                return Ok(self.adapters[i]);
            }
            i = i + 1;
        }
        Err(
            Error::new(
                ErrorKind::NoAdapter,
                cat2("no adapter registered for ", kind.name()).as_str(),
            ),
        )
    }

    fn ensure_capability(&self, requested: &Vec<ManagerKind>, searching: bool) -> (r: Result<
        (),
        Error,
    >)
        ensures
            verdict(r) == capability_verdict(self@, requested@, searching),
    {
        let mut unsupported: Vec<String> = Vec::new();
        let n: usize = requested.len();
        assert(views(unsupported@) =~= incapable(self@, requested@.take(0), searching));
        for i in 0..n
            invariant
                n == requested@.len(),
                views(unsupported@) == incapable(self@, requested@.take(i as int), searching),
        {
            proof {
                assert(requested@.take(i + 1).drop_last() =~= requested@.take(i as int));
                assert(requested@.take(i + 1).last() == requested@[i as int]);
            }
            if let Ok(adapter) = self.adapter(requested[i]) {
                let supported = if searching {
                    adapter.supports_search()
                } else {
                    adapter.supports_install()
                };
                if !supported {
                    unsupported.push(requested[i].name().to_owned());
                }
            }
        }
        assert(requested@.take(n as int) =~= requested@);
        assert(unsupported@.len() == views(unsupported@).len());
        if unsupported.len() == 0 {
            return Ok(());
        }
        let operation = if searching {
            "search"
        } else {
            "install"
        };
        Err(
            Error::new(
                ErrorKind::UnsupportedOperation,
                crate::text::cat4(
                    join_texts(&unsupported, ", ").as_str(),
                    " cannot be used with `mate ",
                    operation,
                    "`: it executes package binaries instead of persistently installing them; use npm for installation",
                ).as_str(),
            ),
        )
    }

    pub fn ensure_searchable(&self, requested: &Vec<ManagerKind>) -> (r: Result<(), Error>)
        ensures
            verdict(r) == capability_verdict(self@, requested@, true),
    {
        self.ensure_capability(requested, true)
    }

    pub fn ensure_installable(&self, requested: &Vec<ManagerKind>) -> (r: Result<(), Error>)
        ensures
            verdict(r) == capability_verdict(self@, requested@, false),
    {
        self.ensure_capability(requested, false)
    }

    /// The managers to discover; all, if `filter` names none.
    pub fn selected(&self, filter: &Vec<ManagerKind>) -> (r: Vec<Adapter>)
        ensures
            r@ == chosen(self@, filter@),
    {
        let mut r: Vec<Adapter> = Vec::new();
        let n: usize = self.adapters.len();
        assert(r@ =~= chosen(self@.take(0), filter@));
        for i in 0..n
            invariant
                n == self.adapters@.len(),
                r@ == chosen(self@.take(i as int), filter@),
        {
            proof {
                assert(self@.take(i + 1).drop_last() =~= self@.take(i as int));
                assert(self@.take(i + 1).last() == self.adapters@[i as int]);
            }
            if filter.len() == 0 || has_kind(filter, self.adapters[i].kind()) {
                r.push(self.adapters[i]);
            }
        }
        assert(self@.take(n as int) =~= self@);
        r
    }

    /// The instances that were discovered, in the order of their ids, and what went
    /// wrong.
    pub fn discover(results: &Vec<Discovery>) -> (r: (Vec<ManagerInstance>, Vec<String>))
        ensures
            views(r.0@) == sorted_instances(all_instances(views(results@))),
            views(r.1@) == discovery_warnings(views(results@)),
    {
        let ghost all = views(results@);
        let mut instances: Vec<ManagerInstance> = Vec::new();
        let mut warnings: Vec<String> = Vec::new();
        let n: usize = results.len();
        assert(views(instances@) =~= all_instances(all.take(0)));
        assert(views(warnings@) =~= discovery_warnings(all.take(0)));
        for i in 0..n
            invariant
                n == results@.len(),
                all == views(results@),
                views(instances@) == all_instances(all.take(i + 0)),
                views(warnings@) == discovery_warnings(all.take(i + 0)),
        {
            proof {
                assert(all.take(i + 1).drop_last() =~= all.take(i + 0));
                assert(all.take(i + 1).last() == results@[i + 0]@);
            }
            match &results[i].result {
                Ok(found) => {
                    append_instances(&mut instances, found);
                },
                Err(e) => {
                    warnings.push(cat3(results[i].kind.name(), ": ", e.text().as_str()));
                },
            }
        }
        assert(all.take(n + 0) =~= all);
        let ghost leq = |a: InstanceView, b: InstanceView| instance_leq(a, b);
        let sorted = sort_by_view(instances, instance_first, Ghost(leq));
        (sorted, warnings)
    }

    /// The jobs that search all `instances` for all `queries`.
    pub fn search_jobs(
        &self,
        host: &Host,
        instances: &Vec<ManagerInstance>,
        queries: &Vec<String>,
    ) -> (r: Result<Vec<SearchJob>, Error>)
        ensures
            outcome_list(r) == jobs(host@, self@, views(instances@), views(queries@)),
    {
        let ghost all = views(instances@);
        let ghost asked = views(queries@);
        let mut list: Vec<SearchJob> = Vec::new();
        assert(queries@.len() == asked.len());
        if queries.len() == 0 {
            return Ok(list);
        }
        let n: usize = instances.len();
        for i in 0..n
            invariant
                n == instances@.len(),
                all == views(instances@),
                asked == views(queries@),
                asked.len() > 0,
                jobs(host@, self@, all.take(i as int), asked) == Ok::<Seq<JobView>, ErrorView>(
                    views(list@),
                ),
        {
            proof {
                assert(all.take(i + 1).drop_last() =~= all.take(i as int));
                assert(all.take(i + 1).last() == instances@[i as int]@);
            }
            let adapter = match self.adapter(instances[i].kind) {
                Ok(adapter) => adapter,
                Err(e) => {
                    proof {
                        lemma_jobs_stop(host@, self@, all, asked, i + 1);
                    }
                    return Err(e);
                },
            };
            if adapter.supports_search() {
                push_jobs(&mut list, host, adapter, &instances[i], queries);
            }
        }
        assert(all.take(n as int) =~= all);
        Ok(list)
    }

    /// The candidates that were found, in order, and what went wrong.
    pub fn search(results: &Vec<SearchOutcome>) -> (r: (Vec<Candidate>, Vec<String>))
        ensures
            views(r.0@) == sorted_found(all_candidates(views(results@))),
            views(r.1@) == search_warnings(views(results@)),
    {
        let ghost all = views(results@);
        let mut candidates: Vec<Candidate> = Vec::new();
        let mut warnings: Vec<String> = Vec::new();
        let n: usize = results.len();
        assert(views(candidates@) =~= all_candidates(all.take(0)));
        assert(views(warnings@) =~= search_warnings(all.take(0)));
        for i in 0..n
            invariant
                n == results@.len(),
                all == views(results@),
                views(candidates@) == all_candidates(all.take(i + 0)),
                views(warnings@) == search_warnings(all.take(i + 0)),
        {
            proof {
                assert(all.take(i + 1).drop_last() =~= all.take(i + 0));
                assert(all.take(i + 1).last() == results@[i + 0]@);
            }
            match &results[i].result {
                Ok(found) => {
                    append_candidates(&mut candidates, found);
                },
                Err(e) => {
                    insert_sorted(
                        &mut warnings,
                        cat5(
                            results[i].instance_id.as_str(),
                            ", query ",
                            debug_quoted(results[i].query.as_str()).as_str(),
                            ": ",
                            e.text().as_str(),
                        ),
                    );
                },
            }
        }
        assert(all.take(n + 0) =~= all);
        let ghost leq = |a: CandidateView, b: CandidateView| found_leq(a, b);
        let sorted = sort_by_view(candidates, found_first, Ghost(leq));
        (sorted, warnings)
    }
}

fn push_jobs(
    list: &mut Vec<SearchJob>,
    host: &Host,
    adapter: Adapter,
    instance: &ManagerInstance,
    queries: &Vec<String>,
)
    ensures
        views(final(list)@) == views(old(list)@) + instance_jobs(
            host@,
            adapter,
            instance@,
            views(queries@),
        ),
{
    let ghost start = views(list@);
    let ghost all = instance_jobs(host@, adapter, instance@, views(queries@));
    let n: usize = queries.len();
    assert(views(list@) =~= start + all.take(0));
    for i in 0..n
        invariant
            n == queries@.len(),
            all == instance_jobs(host@, adapter, instance@, views(queries@)),
            views(list@) == start + all.take(i as int),
    {
        let job = SearchJob {
            adapter,
            instance: instance.clone(),
            query: queries[i].clone(),
            request: adapter.search_request(host, instance, queries[i].as_str()),
        };
        list.push(job);
        proof {
            assert(all[i as int] == job@);
            assert(views(list@) =~= start + all.take(i + 1));
        }
    }
    assert(all.take(n as int) =~= all);
}

/// Every kind of manager is known to the standard registry, each as itself.
pub proof fn law_every_manager_is_registered(kind: ManagerKind)
    ensures
        find_adapter(standard_adapters(), kind) matches Some(adapter) && adapter.manager() == kind,
{
    reveal_with_fuel(find_adapter, 9);
    let all = standard_adapters();
    assert(all.drop_first() =~= all.skip(1));
    assert(all.skip(1).drop_first() =~= all.skip(2));
    assert(all.skip(2).drop_first() =~= all.skip(3));
    assert(all.skip(3).drop_first() =~= all.skip(4));
    assert(all.skip(4).drop_first() =~= all.skip(5));
    assert(all.skip(5).drop_first() =~= all.skip(6));
    assert(all.skip(6).drop_first() =~= all.skip(7));
}

/// Only npx is never searched and never installs.
pub proof fn law_only_npx_is_incapable(kind: ManagerKind, searching: bool)
    ensures
        capability_verdict(standard_adapters(), seq![kind], searching) is Ok <==> kind
            != ManagerKind::Npx,
{
    law_every_manager_is_registered(kind);
    let list = seq![kind];
    reveal_with_fuel(incapable, 2);
    assert(list.drop_last() =~= Seq::<ManagerKind>::empty());
    assert(list.last() == kind);
}

/// Whatever a manager plans, each step names the variables that it sets once and in
/// order.
pub proof fn law_planned_variables_are_in_order(
    adapter: Adapter,
    host: HostView,
    instance: InstanceView,
    packages: Seq<Seq<char>>,
    target: TargetView,
    context: ContextView,
)
    ensures
        adapter.plans(host, instance, packages, target, context) matches Ok(steps) ==> forall|k: int|
            0 <= k < steps.len() ==> env_ordered((#[trigger] steps[k]).env),
{
    assert forall|pairs: Seq<(Seq<char>, Seq<char>)>| env_ordered(#[trigger] env_of(pairs)) by {
        law_env_of_ordered(pairs);
    }
    if let Adapter::Cargo(_) = adapter {
        let root = target.path->0;
        let cwd = crate::adapters::lang::cargo::neutral_directory(host, context);
        lemma_cargo_variables(instance, root, cwd, packages, target.exists);
    }
}

proof fn lemma_cargo_variables(
    instance: InstanceView,
    root: crate::path::PathView,
    cwd: crate::path::PathView,
    packages: Seq<Seq<char>>,
    exists: bool,
)
    ensures
        crate::adapters::lang::cargo::install_steps(instance, root, cwd, packages, exists)
            matches Ok(steps) ==> forall|k: int|
            0 <= k < steps.len() ==> env_ordered((#[trigger] steps[k]).env),
    decreases packages.len(),
{
    assert forall|pairs: Seq<(Seq<char>, Seq<char>)>| env_ordered(#[trigger] env_of(pairs)) by {
        law_env_of_ordered(pairs);
    }
    if packages.len() > 0 {
        lemma_cargo_variables(instance, root, cwd, packages.drop_last(), exists);
    }
}

/// Whether some step has `arg` among its arguments.
pub open spec fn some_step_has(steps: Seq<CommandView>, arg: Seq<char>) -> bool {
    exists|k: int| 0 <= k < steps.len() && (#[trigger] steps[k]).args.contains(arg)
}

/// Whatever a manager plans, each step runs the executable of the instance, only
/// steps of the system's own managers need elevation, and every package is told to
/// some step.
pub proof fn law_plans_install_all_packages(
    adapter: Adapter,
    host: HostView,
    instance: InstanceView,
    packages: Seq<Seq<char>>,
    target: TargetView,
    context: ContextView,
)
    ensures
        adapter.plans(host, instance, packages, target, context) matches Ok(steps) ==> {
            &&& forall|k: int|
                0 <= k < steps.len() ==> (#[trigger] steps[k]).program == instance.executable
                    && steps[k].requires_admin == (adapter.manager() == ManagerKind::Apt
                    || adapter.manager() == ManagerKind::Pacman)
            &&& forall|i: int| 0 <= i < packages.len() ==> some_step_has(steps, #[trigger] packages[i])
        },
{
    match adapter.plans(host, instance, packages, target, context) {
        Err(_) => {},
        Ok(steps) => {
            match adapter {
                Adapter::Cargo(_) => {
                    let root = target.path->0;
                    let cwd = crate::adapters::lang::cargo::neutral_directory(host, context);
                    lemma_cargo_steps(instance, root, cwd, packages, target.exists);
                },
                Adapter::Uv(_) => {
                    lemma_uv_steps(host, instance, packages, target, context);
                },
                _ => {
                    assert(steps.len() == 1);
                    let args = steps[0].args;
                    assert(args.skip(args.len() - packages.len()) =~= packages);
                    assert forall|i: int| 0 <= i < packages.len() implies some_step_has(
                        steps,
                        #[trigger] packages[i],
                    ) by {
                        assert(args[args.len() - packages.len() + i] == packages[i]);
                        assert(steps[0].args.contains(packages[i]));
                    }
                },
            }
        },
    }
}

/// Whether a manager takes a specification of a package.
pub open spec fn takes_spec(kind: ManagerKind, spec: Seq<char>) -> bool {
    match kind {
        ManagerKind::Cargo => crate::adapters::lang::cargo::spec_verdict(spec) is Ok,
        ManagerKind::Npm => crate::adapters::lang::node::npm::spec_verdict(spec) is Ok,
        ManagerKind::Npx => false,
        _ => true,
    }
}

/// Whether a target is one without a place of its own, or at a path that arguments
/// can name.
pub open spec fn has_usable_path(target: TargetView) -> bool {
    match target.kind {
        TargetKind::System | TargetKind::User => true,
        _ => target.path matches Some(path) && path_exact(path),
    }
}

/// Every target that a manager offers can be planned for: packages that the manager
/// takes are never refused for the sake of the target.
pub proof fn law_offered_targets_can_be_planned(
    adapter: Adapter,
    host: HostView,
    instance: InstanceView,
    packages: Seq<Seq<char>>,
    target: TargetView,
    context: ContextView,
)
    requires
        adapter.targets(host, instance, context).contains(target),
        has_usable_path(target),
        packages.len() > 0,
        forall|i: int|
            0 <= i < packages.len() ==> takes_spec(adapter.manager(), #[trigger] packages[i]),
    ensures
        adapter.plans(host, instance, packages, target, context) is Ok,
{
    broadcast use vstd::seq_lib::group_filter_ensures;
    broadcast use vstd::seq::Seq::lemma_filter_contains_rev;

    match adapter {
        Adapter::Cargo(_) => {
            let root = target.path->0;
            let cwd = crate::adapters::lang::cargo::neutral_directory(host, context);
            lemma_cargo_accepts(instance, root, cwd, packages, target.exists);
        },
        Adapter::Npm(_) => {
            lemma_npm_accepts(packages);
            let local = of_kinds(
                context.targets,
                TargetKind::NodeProject,
                TargetKind::NodeWorkspace,
            );
            if local.contains(target) {
                assert(context.targets.contains(target));
                let k = choose|k: int|
                    0 <= k < context.targets.len() && context.targets[k] == target;
                assert(context.targets[k].kind == target.kind);
            }
        },
        _ => {},
    }
}

proof fn lemma_cargo_accepts(
    instance: InstanceView,
    root: crate::path::PathView,
    cwd: crate::path::PathView,
    packages: Seq<Seq<char>>,
    exists: bool,
)
    requires
        forall|i: int|
            0 <= i < packages.len() ==> takes_spec(ManagerKind::Cargo, #[trigger] packages[i]),
    ensures
        crate::adapters::lang::cargo::install_steps(instance, root, cwd, packages, exists) is Ok,
    decreases packages.len(),
{
    if packages.len() > 0 {
        let rest = packages.drop_last();
        assert forall|i: int| 0 <= i < rest.len() implies takes_spec(
            ManagerKind::Cargo,
            #[trigger] rest[i],
        ) by {
            assert(rest[i] == packages[i]);
        }
        lemma_cargo_accepts(instance, root, cwd, rest, exists);
        assert(takes_spec(ManagerKind::Cargo, packages[packages.len() - 1]));
    }
}

proof fn lemma_npm_accepts(packages: Seq<Seq<char>>)
    requires
        forall|i: int|
            0 <= i < packages.len() ==> takes_spec(ManagerKind::Npm, #[trigger] packages[i]),
    ensures
        crate::adapters::lang::node::npm::specs_verdict(packages) is Ok,
    decreases packages.len(),
{
    if packages.len() > 0 {
        let rest = packages.drop_last();
        assert forall|i: int| 0 <= i < rest.len() implies takes_spec(
            ManagerKind::Npm,
            #[trigger] rest[i],
        ) by {
            assert(rest[i] == packages[i]);
        }
        lemma_npm_accepts(rest);
        assert(takes_spec(ManagerKind::Npm, packages[packages.len() - 1]));
    }
}

proof fn lemma_cargo_steps(
    instance: InstanceView,
    root: crate::path::PathView,
    cwd: crate::path::PathView,
    packages: Seq<Seq<char>>,
    exists: bool,
)
    ensures
        crate::adapters::lang::cargo::install_steps(instance, root, cwd, packages, exists)
            matches Ok(steps) ==> {
            &&& steps.len() == packages.len()
            &&& forall|k: int|
                0 <= k < steps.len() ==> (#[trigger] steps[k]).program == instance.executable
                    && !steps[k].requires_admin && steps[k].args.contains(packages[k])
            &&& forall|i: int| 0 <= i < packages.len() ==> some_step_has(steps, #[trigger] packages[i])
        },
    decreases packages.len(),
{
    if packages.len() > 0 {
        let rest = packages.drop_last();
        lemma_cargo_steps(instance, root, cwd, rest, exists);
        match crate::adapters::lang::cargo::install_steps(instance, root, cwd, packages, exists) {
            Err(_) => {},
            Ok(steps) => {
                let before = crate::adapters::lang::cargo::install_steps(
                    instance,
                    root,
                    cwd,
                    rest,
                    exists,
                )->Ok_0;
                assert forall|k: int| 0 <= k < steps.len() implies (#[trigger] steps[k]).program
                    == instance.executable && !steps[k].requires_admin && steps[k].args.contains(
                    packages[k],
                ) by {
                    if k < before.len() {
                        assert(steps[k] == before[k]);
                        assert(rest[k] == packages[k]);
                    } else {
                        let args = crate::adapters::lang::cargo::install_args(
                            root,
                            packages.last(),
                        );
                        let all = instance.launcher_args + args;
                        assert(all[instance.launcher_args.len() + 10int] == packages.last());
                    }
                }
                assert forall|i: int| 0 <= i < packages.len() implies some_step_has(
                    steps,
                    #[trigger] packages[i],
                ) by {
                    assert(steps[i].args.contains(packages[i]));
                }
            },
        }
    }
}

proof fn lemma_uv_steps(
    host: HostView,
    instance: InstanceView,
    packages: Seq<Seq<char>>,
    target: TargetView,
    context: ContextView,
)
    ensures
        UvAdapter.plans(host, instance, packages, target, context) matches Ok(steps) ==> {
            &&& forall|k: int|
                0 <= k < steps.len() ==> (#[trigger] steps[k]).program == instance.executable
                    && !steps[k].requires_admin
            &&& forall|i: int| 0 <= i < packages.len() ==> some_step_has(steps, #[trigger] packages[i])
        },
{
    match UvAdapter.plans(host, instance, packages, target, context) {
        Err(_) => {},
        Ok(steps) => {
            assert forall|i: int| 0 <= i < packages.len() implies some_step_has(
                steps,
                #[trigger] packages[i],
            ) by {
                if target.kind == TargetKind::User {
                    assert(steps[i] == crate::adapters::lang::uv::tool_step(
                        instance,
                        context,
                        packages[i],
                    ));
                    assert(steps[i].args[5] == packages[i]);
                    assert(steps[i].args.contains(packages[i]));
                } else {
                    let last = steps.len() - 1;
                    assert(steps[last].args[7 + i] == packages[i]);
                    assert(steps[last].args.contains(packages[i]));
                }
            }
        },
    }
}

/// What each manager can install into, of what the context knows: APT and pacman into the
/// system, Homebrew for the user, Cargo into install roots, uv for the user and into
/// Python environments, npm into Node projects and workspaces and into its own prefix,
/// pip for the user or, if it belongs to an environment, into that one only, npx into
/// nothing.
pub proof fn law_targets_by_manager(
    host: HostView,
    instance: InstanceView,
    context: ContextView,
    t: TargetView,
)
    ensures
        AptAdapter.targets(host, instance, context).contains(t) <==> context.targets.contains(t)
            && t.kind == TargetKind::System,
        PacmanAdapter.targets(host, instance, context).contains(t) <==> context.targets.contains(t)
            && t.kind == TargetKind::System,
        BrewAdapter.targets(host, instance, context).contains(t) <==> context.targets.contains(t)
            && t.kind == TargetKind::User,
        CargoAdapter.targets(host, instance, context).contains(t) <==> context.targets.contains(t)
            && t.kind == TargetKind::CargoRoot,
        UvAdapter.targets(host, instance, context).contains(t) <==> context.targets.contains(t) && (
        t.kind == TargetKind::User || t.kind == TargetKind::PythonVenv),
        PipAdapter.targets(host, instance, context).contains(t) <==> context.targets.contains(t)
            && match instance.scope {
            crate::model::ScopeView::Generic => t.kind == TargetKind::User,
            crate::model::ScopeView::PythonVenv(home) => t.kind == TargetKind::PythonVenv && t.exists
                && (t.path matches Some(path) && crate::path::path_same(path, home)),
            crate::model::ScopeView::NodeGlobal(_) => false,
        },
        NpmAdapter.targets(host, instance, context).contains(t) <==> (context.targets.contains(t) && (
        t.kind == TargetKind::NodeProject || t.kind == TargetKind::NodeWorkspace)) || (
        instance.scope matches crate::model::ScopeView::NodeGlobal(prefix) && t.kind
            == TargetKind::NodeGlobal && t.path == Some(prefix) && t.exists == host.is_dir(prefix)
            && t.id == "node-global:"@ + crate::path::path_text(prefix) && t.label
            == "npm global prefix "@ + crate::path::path_text(prefix)),
        !NpxAdapter.targets(host, instance, context).contains(t),
{
    let all = context.targets;
    lemma_filtered(all, |target: TargetView| target.kind == TargetKind::System, t);
    lemma_filtered(all, |target: TargetView| target.kind == TargetKind::User, t);
    lemma_filtered(all, |target: TargetView| target.kind == TargetKind::CargoRoot, t);
    lemma_filtered(
        all,
        |target: TargetView|
            target.kind == TargetKind::User || target.kind == TargetKind::PythonVenv,
        t,
    );
    let local = |target: TargetView|
        target.kind == TargetKind::NodeProject || target.kind == TargetKind::NodeWorkspace;
    lemma_filtered(all, local, t);
    if let crate::model::ScopeView::PythonVenv(home) = instance.scope {
        lemma_filtered(
            all,
            |target: TargetView| crate::adapters::lang::pip::is_environment(target, home),
            t,
        );
    }
    if let crate::model::ScopeView::NodeGlobal(prefix) = instance.scope {
        let before = of_kinds(all, TargetKind::NodeProject, TargetKind::NodeWorkspace);
        let more = crate::adapters::lang::node::npm::global_target(host, prefix);
        let after = NpmAdapter.targets(host, instance, context);
        assert(after == before.push(more));
        if before.contains(t) {
            let k = choose|k: int| 0 <= k < before.len() && before[k] == t;
            assert(after[k] == t);
        }
        assert(after[before.len() as int] == more);
        if after.contains(t) && t != more {
            let k = choose|k: int| 0 <= k < after.len() && after[k] == t;
            assert(before[k] == t);
        }
    }
}

proof fn lemma_filtered(all: Seq<TargetView>, keep: spec_fn(TargetView) -> bool, t: TargetView)
    ensures
        all.filter(keep).contains(t) <==> all.contains(t) && keep(t),
    decreases all.len(),
{
    reveal(Seq::filter);
    if all.len() > 0 {
        let rest = all.drop_last();
        lemma_filtered(rest, keep, t);
        let kept = all.filter(keep);
        let before = rest.filter(keep);
        if rest.contains(t) {
            let k = choose|k: int| 0 <= k < rest.len() && rest[k] == t;
            assert(all[k] == t);
        }
        if all.contains(t) && t != all.last() {
            let k = choose|k: int| 0 <= k < all.len() && all[k] == t;
            assert(rest[k] == t);
        }
        assert(all[all.len() - 1] == all.last());
        if before.contains(t) {
            let k = choose|k: int| 0 <= k < before.len() && before[k] == t;
            assert(kept[k] == t);
        }
        if keep(all.last()) {
            assert(kept[kept.len() - 1] == all.last());
        }
        if kept.contains(t) && t != all.last() {
            let k = choose|k: int| 0 <= k < kept.len() && kept[k] == t;
            assert(before[k] == t);
        }
    }
}

/// Which executables are asked for their versions: of APT the trusted `apt-get` of the
/// system, of pacman the trusted `pacman`, of Homebrew, Cargo and uv each command of their
/// name that may be used, of pip each `pip` and `pip3`.
pub proof fn law_managers_are_looked_for(host: HostView, context: ContextView)
    ensures
        AptAdapter.probes(host, context) == asked_for_version(
            match crate::process::first_trusted(
                host,
                crate::process::system_places(host.platform, "apt-get"@),
            ) {
                Some(path) => seq![path],
                None => Seq::empty(),
            },
            Seq::empty(),
            Seq::empty(),
            None,
        ),
        PacmanAdapter.probes(host, context) == asked_for_version(
            match crate::process::first_trusted(
                host,
                crate::process::system_places(host.platform, "pacman"@),
            ) {
                Some(path) => seq![path],
                None => Seq::empty(),
            },
            Seq::empty(),
            Seq::empty(),
            None,
        ),
        BrewAdapter.probes(host, context) == asked_for_version(
            crate::process::user_commands(host, "brew"@, context.workspace_root),
            Seq::empty(),
            Seq::empty(),
            None,
        ),
        UvAdapter.probes(host, context) == asked_for_version(
            crate::process::user_commands(host, "uv"@, context.workspace_root),
            Seq::empty(),
            Seq::empty(),
            None,
        ),
        CargoAdapter.probes(host, context) == asked_for_version(
            crate::process::user_commands(host, "cargo"@, context.workspace_root),
            seq!["CARGO_"@, "RUSTC"@, "RUSTDOC"@, "RUSTFLAGS"@, "RUSTUP_"@],
            seq![("CARGO_TERM_COLOR"@, "never"@)],
            Some(
                match crate::platform::home(host) {
                    Some(home) => home,
                    None => context.cwd,
                },
            ),
        ),
        PipAdapter.probes(host, context) == asked_for_version(
            crate::path::sorted_path_union(
                crate::path::sorted_path_union(
                    Seq::empty(),
                    crate::process::user_commands(host, "pip"@, context.workspace_root),
                ),
                crate::process::user_commands(host, "pip3"@, context.workspace_root),
            ),
            Seq::empty(),
            Seq::empty(),
            None,
        ),
{
    assert(AptAdapter.probes(host, context) =~= asked_for_version(
        crate::adapters::apt::executables(host),
        Seq::empty(),
        Seq::empty(),
        None,
    ));
    assert(PacmanAdapter.probes(host, context) =~= asked_for_version(
        crate::adapters::pacman::executables(host),
        Seq::empty(),
        Seq::empty(),
        None,
    ));
}

/// The requests that run each of some executables with `--version`.
pub open spec fn asked_for_version(
    executables: Seq<crate::path::PathView>,
    prefixes: Seq<Seq<char>>,
    env: Seq<(Seq<char>, Seq<char>)>,
    cwd: Option<crate::path::PathView>,
) -> Seq<RequestView> {
    Seq::new(
        executables.len(),
        |i: int|
            RequestView {
                program: executables[i],
                args: seq!["--version"@],
                seconds: 4,
                limit: 65_536,
                env_remove_prefixes: prefixes,
                env,
                cwd,
            },
    )
}

/// Every executable that is asked for its version is one instance of its manager, in the
/// same order, whatever came of the request; npm asks each of its executables twice.
pub proof fn law_what_is_asked_is_an_instance(
    adapter: Adapter,
    host: HostView,
    context: ContextView,
    replies: Seq<Option<OutputView>>,
    i: int,
)
    ensures
        ({
            let probes = adapter.probes(host, context);
            let instances = adapter.instances(host, context, replies);
            let each: int = if adapter is Npm {
                2
            } else {
                1
            };
            &&& probes.len() == each * instances.len()
            &&& 0 <= i < instances.len() ==> {
                &&& instances[i].executable == probes[each * i].program
                &&& instances[i].kind == adapter.manager()
                &&& instances[i].id == manager_name(adapter.manager()) + ":"@
                    + crate::path::path_text(instances[i].executable)
                &&& instances[i].version == crate::process::version_line(replies[each * i])
            }
        }),
{
    if adapter is Npm {
        crate::adapters::lang::node::npm::law_npm_is_discovered(host, context, replies, i);
    }
    if adapter is Pip {
        assert(crate::adapters::lang::pip::executables(host, context).len() == adapter.probes(
            host,
            context,
        ).len());
    }
}

/// Those managers are asked that the user named, or all if they named none, in the order
/// in which they are known.
pub proof fn law_named_managers_are_asked(
    adapters: Seq<Adapter>,
    more: Adapter,
    filter: Seq<ManagerKind>,
)
    ensures
        chosen(Seq::empty(), filter) == Seq::<Adapter>::empty(),
        filter.len() == 0 ==> chosen(adapters, filter) == adapters,
        filter.contains(more.manager()) ==> chosen(adapters.push(more), filter) == chosen(
            adapters,
            filter,
        ).push(more),
        filter.len() > 0 && !filter.contains(more.manager()) ==> chosen(adapters.push(more), filter)
            == chosen(adapters, filter),
    decreases adapters.len(),
{
    assert(adapters.push(more).drop_last() =~= adapters);
    if adapters.len() > 0 && filter.len() == 0 {
        law_named_managers_are_asked(adapters.drop_last(), more, filter);
        assert(adapters.drop_last().push(adapters.last()) =~= adapters);
    } else if adapters.len() == 0 {
        assert(chosen(adapters, filter) =~= adapters);
    }
}

/// A request for managers is refused if and only if one of them is known and cannot do
/// what is asked of it.
pub proof fn law_incapable_managers_are_refused(
    adapters: Seq<Adapter>,
    requested: Seq<ManagerKind>,
    searching: bool,
)
    ensures
        capability_verdict(adapters, requested, searching) is Err <==> exists|i: int|
            0 <= i < requested.len() && (find_adapter(
                adapters,
                #[trigger] requested[i],
            ) matches Some(adapter) && !(if searching {
                adapter.searchable()
            } else {
                adapter.installable()
            })),
        capability_verdict(adapters, requested, searching) matches Err(e) ==> e.kind
            == ErrorKind::UnsupportedOperation,
{
    lemma_incapable(adapters, requested, searching);
}

proof fn lemma_incapable(adapters: Seq<Adapter>, requested: Seq<ManagerKind>, searching: bool)
    ensures
        incapable(adapters, requested, searching).len() > 0 <==> exists|i: int|
            0 <= i < requested.len() && (find_adapter(
                adapters,
                #[trigger] requested[i],
            ) matches Some(adapter) && !capable(adapter, searching)),
    decreases requested.len(),
{
    if requested.len() > 0 {
        let rest = requested.drop_last();
        lemma_incapable(adapters, rest, searching);
        if incapable(adapters, rest, searching).len() > 0 {
            let i = choose|i: int|
                0 <= i < rest.len() && (find_adapter(
                    adapters,
                    #[trigger] rest[i],
                ) matches Some(adapter) && !capable(adapter, searching));
            assert(requested[i] == rest[i]);
        } else {
            assert forall|i: int| 0 <= i < rest.len() implies !(find_adapter(
                adapters,
                #[trigger] requested[i],
            ) matches Some(adapter) && !capable(adapter, searching)) by {
                assert(requested[i] == rest[i]);
            }
        }
        let last = requested[requested.len() - 1];
        assert(last == requested.last());
    }
}

/// The manager of a kind is the first one that is of it.
pub proof fn law_first_manager_of_a_kind(adapters: Seq<Adapter>, kind: ManagerKind, k: int)
    ensures
        0 <= k < adapters.len() && adapters[k].manager() == kind && (forall|j: int|
            0 <= j < k ==> (#[trigger] adapters[j]).manager() != kind) ==> registered(
            adapters,
            kind,
        ) == Ok::<Adapter, ErrorView>(adapters[k]),
        (forall|j: int| 0 <= j < adapters.len() ==> (#[trigger] adapters[j]).manager() != kind) ==> (
        registered(adapters, kind) matches Err(e) && e.kind == ErrorKind::NoAdapter),
    decreases adapters.len(),
{
    if adapters.len() > 0 {
        let rest = adapters.drop_first();
        assert(forall|j: int| 0 <= j < rest.len() ==> #[trigger] rest[j] == adapters[j + 1]);
        law_first_manager_of_a_kind(rest, kind, k - 1);
        if 0 < k < adapters.len() {
            assert(rest[k - 1] == adapters[k]);
        }
    }
}

/// What managers found out is put together, manager by manager: all instances and all
/// candidates of those that succeeded, one warning for each that failed.
pub proof fn law_results_are_put_together(
    discoveries: Seq<DiscoveryView>,
    discovery: DiscoveryView,
    outcomes: Seq<SearchOutcomeView>,
    outcome: SearchOutcomeView,
)
    ensures
        all_instances(Seq::empty()) == Seq::<InstanceView>::empty(),
        discovery_warnings(Seq::empty()) == Seq::<Seq<char>>::empty(),
        all_candidates(Seq::empty()) == Seq::<CandidateView>::empty(),
        discovery.result matches Ok(found) ==> all_instances(discoveries.push(discovery))
            == all_instances(discoveries) + found && discovery_warnings(discoveries.push(discovery))
            == discovery_warnings(discoveries),
        discovery.result matches Err(e) ==> all_instances(discoveries.push(discovery))
            == all_instances(discoveries) && discovery_warnings(discoveries.push(discovery))
            == discovery_warnings(discoveries).push(
            manager_name(discovery.kind) + ": "@ + error_text(e),
        ),
        outcome.result matches Ok(found) ==> all_candidates(outcomes.push(outcome))
            == all_candidates(outcomes) + found && search_warnings(outcomes.push(outcome))
            == search_warnings(outcomes),
        outcome.result matches Err(e) ==> all_candidates(outcomes.push(outcome)) == all_candidates(
            outcomes,
        ),
{
    assert(discoveries.push(discovery).drop_last() =~= discoveries);
    assert(outcomes.push(outcome).drop_last() =~= outcomes);
}

/// There is a warning for each search that failed, and no other: it names the instance and
/// the query and says what went wrong. Warnings come once each and in order.
pub proof fn law_failed_searches_are_told(results: Seq<SearchOutcomeView>)
    ensures
        crate::order::increasing(search_warnings(results)),
        forall|text: Seq<char>| #[trigger]
            search_warnings(results).contains(text) <==> exists|i: int|
                0 <= i < results.len() && ((#[trigger] results[i]).result matches Err(e) && text
                    == results[i].instance_id + ", query "@ + debug_text(results[i].query) + ": "@
                    + error_text(e)),
    decreases results.len(),
{
    if results.len() > 0 {
        let rest = results.drop_last();
        let last = results[results.len() - 1];
        law_failed_searches_are_told(rest);
        if let Err(e) = last.result {
            crate::order::lemma_sorted_insert(search_warnings(rest), search_warning(last, e));
        }
        assert forall|text: Seq<char>| #[trigger]
            search_warnings(results).contains(text) <==> exists|i: int|
                0 <= i < results.len() && ((#[trigger] results[i]).result matches Err(e) && text
                    == results[i].instance_id + ", query "@ + debug_text(results[i].query) + ": "@
                    + error_text(e)) by {
            if search_warnings(rest).contains(text) {
                let i = choose|i: int|
                    0 <= i < rest.len() && ((#[trigger] rest[i]).result matches Err(e) && text
                        == rest[i].instance_id + ", query "@ + debug_text(rest[i].query) + ": "@
                        + error_text(e));
                assert(results[i] == rest[i]);
            }
            if exists|i: int|
                0 <= i < results.len() && ((#[trigger] results[i]).result matches Err(e) && text
                    == results[i].instance_id + ", query "@ + debug_text(results[i].query) + ": "@
                    + error_text(e)) {
                let i = choose|i: int|
                    0 <= i < results.len() && ((#[trigger] results[i]).result matches Err(e) && text
                        == results[i].instance_id + ", query "@ + debug_text(results[i].query)
                        + ": "@ + error_text(e));
                if i < rest.len() {
                    assert(results[i] == rest[i]);
                }
            }
            if last.result is Err {
                assert(results[results.len() - 1].result is Err);
            }
        }
    }
}

/// Every instance whose manager can search is asked for every query, instance by instance
/// and query by query, with the request that its manager makes; no other instance is
/// asked. An instance of a manager that is not known is an error, if there is a query.
pub proof fn law_every_instance_is_asked_for_every_query(
    host: HostView,
    adapters: Seq<Adapter>,
    instances: Seq<InstanceView>,
    more: InstanceView,
    queries: Seq<Seq<char>>,
)
    requires
        queries.len() > 0,
    ensures
        jobs(host, adapters, Seq::empty(), queries) == Ok::<Seq<JobView>, ErrorView>(Seq::empty()),
        jobs(host, adapters, instances, queries) matches Err(e) ==> jobs(
            host,
            adapters,
            instances.push(more),
            queries,
        ) == Err::<Seq<JobView>, ErrorView>(e),
        jobs(host, adapters, instances, queries) matches Ok(before) ==> {
            let after = jobs(host, adapters, instances.push(more), queries);
            &&& registered(adapters, more.kind) matches Err(e) ==> after == Err::<
                Seq<JobView>,
                ErrorView,
            >(e)
            &&& registered(adapters, more.kind) matches Ok(adapter) ==> (after matches Ok(list) && {
                &&& !adapter.searchable() ==> list == before
                &&& adapter.searchable() ==> {
                    &&& list.len() == before.len() + queries.len()
                    &&& list.take(before.len() as int) == before
                    &&& forall|i: int|
                        0 <= i < queries.len() ==> {
                            let job = #[trigger] list[before.len() + i];
                            &&& job.adapter == adapter
                            &&& job.instance == more
                            &&& job.query == queries[i]
                            &&& job.request == adapter.asks(host, more, queries[i])
                        }
                }
            })
        },
{
    assert(instances.push(more).drop_last() =~= instances);
    if let Ok(before) = jobs(host, adapters, instances, queries) {
        if let Ok(adapter) = registered(adapters, more.kind) {
            if adapter.searchable() {
                let list = before + instance_jobs(host, adapter, more, queries);
                assert(list.take(before.len() as int) =~= before);
            }
        }
    }
}

/// Instances come in the order of their ids, and none is added or lost.
pub proof fn law_instances_are_sorted(instances: Seq<InstanceView>)
    ensures
        sorted_instances(instances).to_multiset() == instances.to_multiset(),
        sorted_instances(instances).len() == instances.len(),
        forall|i: int, j: int|
            0 <= i < j < instances.len() ==> crate::order::text_order(
                (#[trigger] sorted_instances(instances)[i]).id,
                (#[trigger] sorted_instances(instances)[j]).id,
            ) != Ordering::Greater,
{
    let leq = |a: InstanceView, b: InstanceView| instance_leq(a, b);
    assert forall|a: InstanceView, b: InstanceView| #[trigger] leq(a, b) || leq(b, a) by {
        crate::order::lemma_text_order(a.id, b.id);
    }
    assert forall|a: InstanceView, b: InstanceView, c: InstanceView|
        #[trigger] leq(a, b) && #[trigger] leq(b, c) implies leq(a, c) by {
        crate::order::lemma_text_order(a.id, b.id);
        crate::order::lemma_text_order(b.id, c.id);
        crate::order::lemma_text_order(a.id, c.id);
        if crate::order::text_order(a.id, b.id) == Ordering::Less && crate::order::text_order(
            b.id,
            c.id,
        ) == Ordering::Less {
            crate::order::lemma_text_transitive(a.id, b.id, c.id);
        }
    }
    crate::order::lemma_stable_sort_sorted(instances, leq);
    let s = sorted_instances(instances);
    assert forall|i: int, j: int| 0 <= i < j < instances.len() implies crate::order::text_order(
        (#[trigger] s[i]).id,
        (#[trigger] s[j]).id,
    ) != Ordering::Greater by {
        assert(leq(s[i], s[j]));
    }
}

/// What a search found comes query by query, in each the higher score first, then manager
/// by manager and name by name; nothing is added or lost.
pub proof fn law_found_candidates_are_sorted(
    candidates: Seq<CandidateView>,
    a: CandidateView,
    b: CandidateView,
)
    ensures
        sorted_found(candidates).to_multiset() == candidates.to_multiset(),
        sorted_found(candidates).len() == candidates.len(),
        forall|i: int, j: int|
            0 <= i < j < candidates.len() ==> found_leq(
                #[trigger] sorted_found(candidates)[i],
                #[trigger] sorted_found(candidates)[j],
            ),
        crate::order::text_order(a.query, b.query) == Ordering::Less ==> !found_leq(b, a),
        a.query == b.query && a.score > b.score ==> !found_leq(b, a),
        a.query == b.query && a.score == b.score && manager_rank(a.manager) < manager_rank(b.manager)
            ==> !found_leq(b, a),
        a.query == b.query && a.score == b.score && a.manager == b.manager
            && crate::order::text_order(a.package, b.package) == Ordering::Less ==> !found_leq(b, a),
{
    let leq = |a: CandidateView, b: CandidateView| found_leq(a, b);
    assert forall|a: CandidateView, b: CandidateView| #[trigger] leq(a, b) || leq(b, a) by {
        crate::order::lemma_key_order_flip(found_key(a), found_key(b));
    }
    assert forall|a: CandidateView, b: CandidateView, c: CandidateView|
        #[trigger] leq(a, b) && #[trigger] leq(b, c) implies leq(a, c) by {
        crate::order::lemma_key_order_transitive(found_key(a), found_key(b), found_key(c));
    }
    crate::order::lemma_stable_sort_sorted(candidates, leq);
    let s = sorted_found(candidates);
    assert forall|i: int, j: int| 0 <= i < j < candidates.len() implies found_leq(
        #[trigger] s[i],
        #[trigger] s[j],
    ) by {
        assert(leq(s[i], s[j]));
    }
    lemma_found_key(b, a);
    reveal_with_fuel(word_order, 2);
    crate::order::lemma_text_order(a.query, b.query);
    crate::order::lemma_text_order(a.package, b.package);
}

} // verus!
