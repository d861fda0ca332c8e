//! npx, which runs packages and installs none.

use vstd::prelude::*;

use crate::adapters::{
    ManagerAdapter, replies_view, SearchReply, SearchReplyView, SearchRequest, SearchRequestView,
};
use crate::adapters::lang::node::{
    discover_launchers, launcher_instance, launcher_version_request, LauncherView,
    make_launcher_instance, make_version_request, node_launchers,
};
use crate::context::{ContextView, ProjectContext};
use crate::error::{Error, ErrorKind, ErrorView, failure};
use crate::host::{Host, HostView};
use crate::model::{
    Candidate, CandidateView, CommandSpec, CommandView, InstanceScope, InstanceView,
    ManagerInstance, ManagerKind, ScopeView, Target, TargetView,
};
use crate::process::{
    CaptureRequest, CapturedOutput, OutputView, RequestView, version_line, version_text,
};
use crate::text::{option_view, views};

verus! {

broadcast use crate::text::group_views;

#[derive(Debug, Clone, Copy, PartialEq, Eq, Structural)]
pub struct NpxAdapter;

/// What npx answers when it is asked for a package.
pub open spec fn not_persistent() -> ErrorView {
    failure(
        ErrorKind::NotPersistent,
        "npx executes package binaries and is not a persistent installer; use npm install for packages (a future mate exec command can expose npx safely)"@,
    )
}

fn refuse() -> (r: Error)
    ensures
        r@ == not_persistent(),
{
    Error::new(
        ErrorKind::NotPersistent,
        "npx executes package binaries and is not a persistent installer; use npm install for packages (a future mate exec command can expose npx safely)",
    )
}

/// One instance for each launcher, with the version that it printed.
pub open spec fn npx_instances(
    launchers: Seq<LauncherView>,
    replies: Seq<Option<OutputView>>,
) -> Seq<InstanceView> {
    Seq::new(
        launchers.len(),
        |i: int|
            launcher_instance(
                ManagerKind::Npx,
                launchers[i],
                version_line(replies[i]),
                ScopeView::Generic,
            ),
    )
}

impl ManagerAdapter for NpxAdapter {
    open spec fn manager(&self) -> ManagerKind {
        ManagerKind::Npx
    }

    fn kind(&self) -> (r: ManagerKind) {
        ManagerKind::Npx
    }

    open spec fn searchable(&self) -> bool {
        false
    }

    fn supports_search(&self) -> (r: bool) {
        false
    }

    open spec fn installable(&self) -> bool {
        false
    }

    fn supports_install(&self) -> (r: bool) {
        false
    }

    open spec fn fuzzy(&self) -> bool {
        false
    }

    fn supports_fuzzy_fallback(&self) -> (r: bool) {
        false
    }

    open spec fn probes(&self, host: HostView, context: ContextView) -> Seq<RequestView> {
        node_launchers(host, "npx"@, "npx-cli.js"@, context).map_values(
            |launcher: LauncherView| launcher_version_request(launcher),
        )
    }

    fn discovery_requests(&self, host: &Host, context: &ProjectContext) -> (r: Vec<CaptureRequest>) {
        let launchers = discover_launchers(host, "npx", "npx-cli.js", context);
        let ghost all = views(launchers@).map_values(
            |launcher: LauncherView| launcher_version_request(launcher),
        );
        let mut r: Vec<CaptureRequest> = Vec::new();
        let n: usize = launchers.len();
        assert(views(r@) =~= all.take(0));
        for i in 0..n
            invariant
                n == launchers@.len(),
                all == views(launchers@).map_values(
                    |launcher: LauncherView| launcher_version_request(launcher),
                ),
                views(r@) == all.take(i as int),
        {
            let request = make_version_request(&launchers[i]);
            r.push(request);
            proof {
                assert(all[i as int] == request@);
                assert(views(r@) =~= all.take(i + 1));
            }
        }
        assert(all.take(n as int) =~= all);
        r
    }

    open spec fn instances(
        &self,
        host: HostView,
        context: ContextView,
        replies: Seq<Option<OutputView>>,
    ) -> Seq<InstanceView> {
        npx_instances(node_launchers(host, "npx"@, "npx-cli.js"@, context), replies)
    }

    fn discover(
        &self,
        host: &Host,
        context: &ProjectContext,
        replies: &Vec<Option<CapturedOutput>>,
    ) -> (r: Vec<ManagerInstance>) {
        let launchers = discover_launchers(host, "npx", "npx-cli.js", context);
        let ghost all = npx_instances(views(launchers@), replies_view(replies@));
        let mut r: Vec<ManagerInstance> = Vec::new();
        let n: usize = launchers.len();
        assert(n == replies@.len());
        assert(views(r@) =~= all.take(0));
        for i in 0..n
            invariant
                n == launchers@.len(),
                replies@.len() == n,
                all == npx_instances(views(launchers@), replies_view(replies@)),
                views(r@) == all.take(i as int),
        {
            let version = version_text(&replies[i]);
            let instance = make_launcher_instance(
                ManagerKind::Npx,
                &launchers[i],
                version,
                InstanceScope::Generic,
            );
            r.push(instance);
            proof {
                assert(replies_view(replies@)[i as int] == option_view(replies@[i as int]));
                assert(all[i as int] == instance@);
                assert(views(r@) =~= all.take(i + 1));
            }
        }
        assert(all.take(n as int) =~= all);
        r
    }

    open spec fn asks(&self, host: HostView, instance: InstanceView, query: Seq<char>) -> Result<
        SearchRequestView,
        ErrorView,
    > {
        Err(not_persistent())
    }

    fn search_request(&self, host: &Host, instance: &ManagerInstance, query: &str) -> (r: Result<
        SearchRequest,
        Error,
    >) {
        Err(refuse())
    }

    open spec fn finds(&self, instance: InstanceView, query: Seq<char>, reply: SearchReplyView) -> Result<
        Seq<CandidateView>,
        ErrorView,
    > {
        Err(not_persistent())
    }

    fn search(&self, instance: &ManagerInstance, query: &str, reply: &SearchReply) -> (r: Result<
        Vec<Candidate>,
        Error,
    >) {
        Err(refuse())
    }

    open spec fn targets(&self, host: HostView, instance: InstanceView, context: ContextView) -> Seq<
        TargetView,
    > {
        Seq::empty()
    }

    fn compatible_targets(
        &self,
        host: &Host,
        instance: &ManagerInstance,
        context: &ProjectContext,
    ) -> (r: Vec<Target>) {
        Vec::new()
    }

    open spec fn plans(
        &self,
        host: HostView,
        instance: InstanceView,
        packages: Seq<Seq<char>>,
        target: TargetView,
        context: ContextView,
    ) -> Result<Seq<CommandView>, ErrorView> {
        Err(not_persistent())
    }

    fn plan(
        &self,
        host: &Host,
        instance: &ManagerInstance,
        packages: &Vec<String>,
        target: &Target,
        context: &ProjectContext,
    ) -> (r: Result<Vec<CommandSpec>, Error>) {
        Err(refuse())
    }
}

/// npx neither finds nor installs anything, whatever it is asked for, and has no target.
pub proof fn law_npx_installs_nothing(
    host: HostView,
    instance: InstanceView,
    query: Seq<char>,
    packages: Seq<Seq<char>>,
    target: TargetView,
    context: ContextView,
    reply: SearchReplyView,
)
    ensures
        NpxAdapter.asks(host, instance, query) matches Err(e) && e.kind == ErrorKind::NotPersistent,
        NpxAdapter.finds(instance, query, reply) matches Err(e) && e.kind
            == ErrorKind::NotPersistent,
        NpxAdapter.plans(host, instance, packages, target, context) matches Err(e) && e.kind
            == ErrorKind::NotPersistent,
        NpxAdapter.targets(host, instance, context).len() == 0,
        !NpxAdapter.searchable(),
        !NpxAdapter.installable(),
{
}

/// Each way to start npx is asked for its version and is one instance.
pub proof fn law_npx_is_discovered(
    host: HostView,
    context: ContextView,
    replies: Seq<Option<OutputView>>,
)
    ensures
        ({
            let launchers = node_launchers(host, "npx"@, "npx-cli.js"@, context);
            let probes = NpxAdapter.probes(host, context);
            let instances = NpxAdapter.instances(host, context, replies);
            &&& probes.len() == launchers.len()
            &&& instances.len() == launchers.len()
            &&& forall|i: int|
                0 <= i < launchers.len() ==> {
                    &&& #[trigger] probes[i] == launcher_version_request(launchers[i])
                    &&& instances[i] == launcher_instance(
                        ManagerKind::Npx,
                        launchers[i],
                        version_line(replies[i]),
                        ScopeView::Generic,
                    )
                }
        }),
{
}

} // verus!
