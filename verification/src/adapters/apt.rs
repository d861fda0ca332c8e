//! APT.

use vstd::prelude::*;

use crate::adapters::{
    at_most_one, batch_label, label_batch, list_of_option, make_instances, ManagerAdapter,
    MAX_RAW_CANDIDATES, of_kind, plain_instances, probe_versions, query_verdict, search_failure,
    SearchReply, SearchReplyView, SearchRequest, SearchRequestView, targets_of_kind, validate_query,
    version_probes,
};
use crate::context::{ContextView, ProjectContext};
use crate::error::{Error, ErrorKind, ErrorView, failure};
use crate::host::{Host, HostView};
use crate::model::{
    Candidate, CandidateView, CommandSpec, CommandView, EnvMap, InstanceView, ManagerInstance,
    ManagerKind, MatchKind, Target, TargetKind, TargetView,
};
use crate::process::{
    CapturedOutput, CaptureRequest, diagnostic, find_trusted_system_executable, first_trusted,
    OutputView, RequestView, safe_diagnostic, search_command_sanitized, search_request,
    system_places,
};
use crate::text::{
    decimal, extend_texts, is_blank, law_split_at_the_first, lemma_blank_trim, lemma_views_push,
    lines, list_of, occurs_at, option_view, split_once, take_at_most, text_lines, text_split_once,
    text_trim, trim, views,
};

verus! {

broadcast use crate::text::group_views;

#[derive(Debug, Clone, Copy, PartialEq, Eq, Structural)]
pub struct AptAdapter;

/// The candidate that one line of `apt-cache search` tells of: a package and its
/// description, with a hyphen between.
pub open spec fn line_candidate(line: Seq<char>, query: Seq<char>, instance: Seq<char>) -> Option<
    CandidateView,
> {
    match split_once(line, " - "@) {
        None => None,
        Some((package, description)) => if trim(package).len() == 0 {
            None
        } else {
            Some(
                CandidateView {
                    query,
                    package: trim(package),
                    match_name: trim(package),
                    manager_instance_id: instance,
                    manager: ManagerKind::Apt,
                    source: "APT configured repositories"@,
                    version: None,
                    description: if trim(description).len() == 0 {
                        None
                    } else {
                        Some(trim(description))
                    },
                    score: 0,
                    match_kind: MatchKind::Unmatched,
                    verified: true,
                },
            )
        },
    }
}

/// The candidates that lines of `apt-cache search` tell of.
pub open spec fn line_candidates(
    list: Seq<Seq<char>>,
    query: Seq<char>,
    instance: Seq<char>,
) -> Seq<CandidateView>
    decreases list.len(),
{
    if list.len() == 0 {
        Seq::empty()
    } else {
        let rest = line_candidates(list.drop_last(), query, instance);
        match line_candidate(list.last(), query, instance) {
            Some(candidate) => rest.push(candidate),
            None => rest,
        }
    }
}

/// What `apt-cache search` found.
pub open spec fn found(text: Seq<char>, query: Seq<char>, instance: Seq<char>) -> Seq<
    CandidateView,
> {
    take_at_most(line_candidates(lines(text), query, instance), MAX_RAW_CANDIDATES as nat)
}

fn parse_line(line: &str, query: &str, instance_id: &str) -> (r: Option<Candidate>)
    ensures
        option_view(r) == line_candidate(line@, query@, instance_id@),
{
    let (package, description) = match text_split_once(line, " - ") {
        Some(pair) => pair,
        None => {
            return None;
        },
    };
    let package = text_trim(package.as_str());
    if package.as_str().is_empty() {
        return None;
    }
    let description = text_trim(description.as_str());
    Some(
        Candidate {
            query: query.to_owned(),
            package: package.clone(),
            match_name: package,
            manager_instance_id: instance_id.to_owned(),
            manager: ManagerKind::Apt,
            source: "APT configured repositories".to_owned(),
            version: None,
            description: if description.as_str().is_empty() {
                None
            } else {
                Some(description)
            },
            score: 0,
            match_kind: MatchKind::Unmatched,
            verified: true,
        },
    )
}

pub fn parse_search(text: &str, query: &str, instance_id: &str) -> (r: Vec<Candidate>)
    ensures
        views(r@) == found(text@, query@, instance_id@),
{
    let list = text_lines(text);
    let ghost all = views(list@);
    let mut r: Vec<Candidate> = Vec::new();
    let n: usize = list.len();
    assert(views(r@) =~= take_at_most(
        line_candidates(all.take(0), query@, instance_id@),
        MAX_RAW_CANDIDATES as nat,
    ));
    for i in 0..n
        invariant
            n == list@.len(),
            all == views(list@),
            views(r@) == take_at_most(
                line_candidates(all.take(i as int), query@, instance_id@),
                MAX_RAW_CANDIDATES as nat,
            ),
    {
        proof {
            assert(all.take(i + 1).drop_last() =~= all.take(i as int));
            assert(all.take(i + 1).last() == list@[i as int]@);
        }
        if let Some(candidate) = parse_line(list[i].as_str(), query, instance_id) {
            assert(r@.len() == views(r@).len());
            if r.len() < MAX_RAW_CANDIDATES {
                let ghost before = r@;
                r.push(candidate);
                proof {
                    lemma_views_push(before, candidate);
                }
            }
            assert(views(r@) =~= take_at_most(
                line_candidates(all.take(i + 1), query@, instance_id@),
                MAX_RAW_CANDIDATES as nat,
            ));
        }
    }
    assert(all.take(n as int) =~= all);
    r
}

/// Where APT is found.
pub open spec fn executables(host: HostView) -> Seq<crate::path::PathView> {
    at_most_one(first_trusted(host, system_places(host.platform, "apt-get"@)))
}

impl ManagerAdapter for AptAdapter {
    open spec fn manager(&self) -> ManagerKind {
        ManagerKind::Apt
    }

    fn kind(&self) -> (r: ManagerKind) {
        ManagerKind::Apt
    }

    open spec fn searchable(&self) -> bool {
        true
    }

    fn supports_search(&self) -> (r: bool) {
        true
    }

    open spec fn installable(&self) -> bool {
        true
    }

    fn supports_install(&self) -> (r: bool) {
        true
    }

    open spec fn fuzzy(&self) -> bool {
        true
    }

    fn supports_fuzzy_fallback(&self) -> (r: bool) {
        true
    }

    open spec fn probes(&self, host: HostView, context: ContextView) -> Seq<RequestView> {
        version_probes(executables(host), Seq::empty(), Seq::empty(), None)
    }

    fn discovery_requests(&self, host: &Host, context: &ProjectContext) -> (r: Vec<CaptureRequest>) {
        let found = list_of_option(find_trusted_system_executable(host, "apt-get"));
        probe_versions(&found, &Vec::new(), &Vec::new(), &None)
    }

    open spec fn instances(
        &self,
        host: HostView,
        context: ContextView,
        replies: Seq<Option<OutputView>>,
    ) -> Seq<InstanceView> {
        plain_instances(ManagerKind::Apt, executables(host), replies)
    }

    fn discover(
        &self,
        host: &Host,
        context: &ProjectContext,
        replies: &Vec<Option<CapturedOutput>>,
    ) -> (r: Vec<ManagerInstance>) {
        let found = list_of_option(find_trusted_system_executable(host, "apt-get"));
        make_instances(ManagerKind::Apt, &found, replies)
    }

    open spec fn asks(&self, host: HostView, instance: InstanceView, query: Seq<char>) -> Result<
        SearchRequestView,
        ErrorView,
    > {
        match query_verdict(query) {
            Err(e) => Err(e),
            Ok(_) => match first_trusted(host, system_places(host.platform, "apt-cache"@)) {
                None => Err(
                    failure(
                        ErrorKind::SearchToolMissing,
                        "trusted system apt-cache is not available"@,
                    ),
                ),
                Some(program) => Ok(
                    SearchRequestView::Run(
                        search_request(
                            program,
                            seq!["search"@, "--names-only"@, query],
                            seq!["APT_CONFIG"@],
                            Seq::empty(),
                        ),
                    ),
                ),
            },
        }
    }

    fn search_request(&self, host: &Host, instance: &ManagerInstance, query: &str) -> (r: Result<
        SearchRequest,
        Error,
    >) {
        match validate_query(query) {
            Err(e) => {
                return Err(e);
            },
            Ok(_) => {},
        }
        match find_trusted_system_executable(host, "apt-cache") {
            None => Err(
                Error::new(
                    ErrorKind::SearchToolMissing,
                    "trusted system apt-cache is not available",
                ),
            ),
            Some(program) => {
                let args = list_of(&["search", "--names-only", query]);
                let prefixes = list_of(&["APT_CONFIG"]);
                assert(views(args@) =~= seq!["search"@, "--names-only"@, query@]);
                assert(views(prefixes@) =~= seq!["APT_CONFIG"@]);
                Ok(SearchRequest::Run(search_command_sanitized(&program, args, prefixes, Vec::new())))
            },
        }
    }

    open spec fn finds(&self, instance: InstanceView, query: Seq<char>, reply: SearchReplyView) -> Result<
        Seq<CandidateView>,
        ErrorView,
    > {
        match reply {
            SearchReplyView::Output(output) => if output.success {
                Ok(found(output.stdout, query, instance.id))
            } else {
                Err(search_failure(output))
            },
            _ => Ok(Seq::empty()),
        }
    }

    fn search(&self, instance: &ManagerInstance, query: &str, reply: &SearchReply) -> (r: Result<
        Vec<Candidate>,
        Error,
    >) {
        match reply {
            SearchReply::Output(output) => if output.success {
                Ok(parse_search(output.stdout.as_str(), query, instance.id.as_str()))
            } else {
                Err(
                    Error::new(
                        ErrorKind::SearchFailed,
                        safe_diagnostic(text_trim(output.stderr.as_str()).as_str()).as_str(),
                    ),
                )
            },
            _ => Ok(Vec::new()),
        }
    }

    open spec fn targets(&self, host: HostView, instance: InstanceView, context: ContextView) -> Seq<
        TargetView,
    > {
        of_kind(context.targets, TargetKind::System)
    }

    fn compatible_targets(
        &self,
        host: &Host,
        instance: &ManagerInstance,
        context: &ProjectContext,
    ) -> (r: Vec<Target>) {
        targets_of_kind(&context.targets, TargetKind::System)
    }

    open spec fn plans(
        &self,
        host: HostView,
        instance: InstanceView,
        packages: Seq<Seq<char>>,
        target: TargetView,
        context: ContextView,
    ) -> Result<Seq<CommandView>, ErrorView> {
        if target.kind != TargetKind::System {
            Err(failure(ErrorKind::UnsupportedTarget, "apt only supports the system target"@))
        } else {
            Ok(
                seq![
                    CommandView {
                        label: batch_label("apt install "@, packages.len()),
                        program: instance.executable,
                        args: seq!["install"@, "--"@] + packages,
                        cwd: None,
                        env: Seq::empty(),
                        env_remove_prefixes: seq!["APT_CONFIG"@],
                        must_not_exist: None,
                        requires_admin: true,
                    },
                ],
            )
        }
    }

    fn plan(
        &self,
        host: &Host,
        instance: &ManagerInstance,
        packages: &Vec<String>,
        target: &Target,
        context: &ProjectContext,
    ) -> (r: Result<Vec<CommandSpec>, Error>) {
        if target.kind != TargetKind::System {
            return Err(
                Error::new(ErrorKind::UnsupportedTarget, "apt only supports the system target"),
            );
        }
        let mut args = list_of(&["install", "--"]);
        assert(views(args@) =~= seq!["install"@, "--"@]);
        extend_texts(&mut args, packages);
        let prefixes = list_of(&["APT_CONFIG"]);
        assert(views(prefixes@) =~= seq!["APT_CONFIG"@]);
        let step = CommandSpec {
            label: label_batch("apt install ", packages.len()),
            program: instance.executable.clone(),
            args,
            cwd: None,
            env: EnvMap::new(),
            env_remove_prefixes: prefixes,
            must_not_exist: None,
            requires_admin: true,
        };
        let mut steps: Vec<CommandSpec> = Vec::new();
        steps.push(step);
        assert(views(steps@) =~= seq![step@]);
        Ok(steps)
    }
}

/// What APT is told to install with: for the system target one elevated step, in which
/// `apt-get` gets `install`, `--` and the packages; any other target is refused.
pub proof fn law_apt_installs(
    host: HostView,
    instance: InstanceView,
    packages: Seq<Seq<char>>,
    target: TargetView,
    context: ContextView,
)
    ensures
        target.kind == TargetKind::System ==> (AptAdapter.plans(
            host,
            instance,
            packages,
            target,
            context,
        ) matches Ok(steps) && {
            &&& steps.len() == 1
            &&& steps[0].program == instance.executable
            &&& steps[0].args == seq!["install"@, "--"@] + packages
            &&& steps[0].requires_admin
            &&& steps[0].cwd is None
            &&& steps[0].env.len() == 0
            &&& steps[0].env_remove_prefixes == seq!["APT_CONFIG"@]
            &&& steps[0].must_not_exist is None
            &&& steps[0].label == "apt install "@ + decimal(packages.len()) + " package(s)"@
        }),
        target.kind != TargetKind::System ==> (AptAdapter.plans(
            host,
            instance,
            packages,
            target,
            context,
        ) matches Err(e) && e.kind == ErrorKind::UnsupportedTarget),
{
}

/// What APT is asked with: the trusted `apt-cache` of the system gets `search`,
/// `--names-only` and the query; without it nothing is asked.
pub proof fn law_apt_searches(host: HostView, instance: InstanceView, query: Seq<char>)
    ensures
        query_verdict(query) matches Err(e) ==> AptAdapter.asks(host, instance, query) == Err::<
            SearchRequestView,
            ErrorView,
        >(e),
        query_verdict(query) is Ok ==> match first_trusted(
            host,
            system_places(host.platform, "apt-cache"@),
        ) {
            None => AptAdapter.asks(host, instance, query) matches Err(e) && e.kind
                == ErrorKind::SearchToolMissing,
            Some(program) => AptAdapter.asks(
                host,
                instance,
                query,
            ) matches Ok(SearchRequestView::Run(request)) && {
                &&& request.program == program
                &&& request.args == seq!["search"@, "--names-only"@, query]
                &&& request.env_remove_prefixes == seq!["APT_CONFIG"@]
                &&& request.env.len() == 0
                &&& request.cwd is None
                &&& request.seconds == 20
                &&& request.limit == 4_194_304
            },
        },
{
}

/// What `apt-cache` printed is read line by line: a line in which ` - ` stands behind
/// something names a package and describes it, and no other line says anything.
pub proof fn law_apt_output_is_read(
    list: Seq<Seq<char>>,
    package: Seq<char>,
    description: Seq<char>,
    other: Seq<char>,
    query: Seq<char>,
    instance: Seq<char>,
)
    requires
        forall|j: int|
            0 <= j < package.len() ==> !#[trigger] occurs_at(
                package + " - "@ + description,
                " - "@,
                j,
            ),
        trim(package).len() > 0,
        forall|j: int| 0 <= j ==> !#[trigger] occurs_at(other, " - "@, j),
    ensures
        line_candidates(Seq::empty(), query, instance) == Seq::<CandidateView>::empty(),
        line_candidates(list.push(other), query, instance) == line_candidates(list, query, instance),
        ({
            let before = line_candidates(list, query, instance);
            let after = line_candidates(
                list.push(package + " - "@ + description),
                query,
                instance,
            );
            let c = after.last();
            &&& after == before.push(c)
            &&& c.query == query
            &&& c.package == trim(package)
            &&& c.match_name == trim(package)
            &&& c.manager == ManagerKind::Apt
            &&& c.manager_instance_id == instance
            &&& c.version is None
            &&& c.description == if is_blank(description) {
                None
            } else {
                Some(trim(description))
            }
            &&& c.verified
            &&& c.source == "APT configured repositories"@
        }),
{
    law_split_at_the_first(package, " - "@, description);
    law_split_at_the_first(other, " - "@, Seq::empty());
    lemma_blank_trim(description);
    let line = package + " - "@ + description;
    assert(list.push(line).drop_last() =~= list);
    assert(list.push(other).drop_last() =~= list);
}

/// What was found is what the lines of the output tell of, at most the first forty; a
/// search that did not succeed is an error with what the command complained of.
pub proof fn law_apt_finds(instance: InstanceView, query: Seq<char>, output: OutputView)
    ensures
        output.success ==> (AptAdapter.finds(
            instance,
            query,
            SearchReplyView::Output(output),
        ) matches Ok(found) && {
            let told = line_candidates(lines(output.stdout), query, instance.id);
            found == if told.len() > 40 {
                told.take(40)
            } else {
                told
            }
        }),
        !output.success ==> (AptAdapter.finds(
            instance,
            query,
            SearchReplyView::Output(output),
        ) matches Err(e) && e.kind == ErrorKind::SearchFailed && e.message == diagnostic(
            trim(output.stderr),
        )),
{
}

} // verus!
