//! Homebrew.

use vstd::prelude::*;

use crate::adapters::{
    batch_label, label_batch, make_instances, ManagerAdapter, MAX_RAW_CANDIDATES, name_score,
    of_kind, plain_instances, probe_versions, query_verdict, score_match, search_failure,
    SearchReply, SearchReplyView, SearchRequest, SearchRequestView, targets_of_kind,
    validate_query, version_probes,
};
use crate::context::{ContextView, ProjectContext};
use crate::error::{Error, ErrorKind, ErrorView, failure};
use crate::host::{Host, HostView};
use crate::model::{
    Candidate, CandidateView, CommandSpec, CommandView, env_of, env_value, EnvMap, EnvVar,
    InstanceView, law_last_value_is_set, ManagerInstance, ManagerKind, MatchKind, Target,
    TargetKind, TargetView,
};
use crate::process::{
    CapturedOutput, CaptureRequest, diagnostic, find_user_commands, OutputView, RequestView,
    safe_diagnostic, search_command_sanitized, search_request, user_commands,
};
use crate::text::{
    decimal, extend_texts, is_blank, lemma_blank_trim, lines, list_of, starts_with, take_at_most,
    text_lines, text_starts_with, text_trim, text_words, trim, views, words,
};

verus! {

broadcast use crate::text::group_views;

#[derive(Debug, Clone, Copy, PartialEq, Eq, Structural)]
pub struct BrewAdapter;

/// The formulae that one line of `brew search` names; a heading names none.
pub open spec fn line_names(line: Seq<char>) -> Seq<Seq<char>> {
    if trim(line).len() == 0 || starts_with(trim(line), "==>"@) {
        Seq::empty()
    } else {
        words(trim(line))
    }
}

/// The formulae that lines of `brew search` name.
pub open spec fn names(list: Seq<Seq<char>>) -> Seq<Seq<char>>
    decreases list.len(),
{
    if list.len() == 0 {
        Seq::empty()
    } else {
        names(list.drop_last()) + line_names(list.last())
    }
}

pub open spec fn formula(package: Seq<char>, query: Seq<char>, instance: Seq<char>) -> CandidateView {
    CandidateView {
        query,
        package,
        match_name: package,
        manager_instance_id: instance,
        manager: ManagerKind::Brew,
        source: "Homebrew formulae"@,
        version: None,
        description: None,
        score: name_score(query, package),
        match_kind: MatchKind::Unmatched,
        verified: true,
    }
}

/// What `brew search` found.
pub open spec fn found(text: Seq<char>, query: Seq<char>, instance: Seq<char>) -> Seq<
    CandidateView,
> {
    take_at_most(names(lines(text)), MAX_RAW_CANDIDATES as nat).map_values(
        |package: Seq<char>| formula(package, query, instance),
    )
}

fn all_names(text: &str) -> (r: Vec<String>)
    ensures
        views(r@) == names(lines(text@)),
{
    let list = text_lines(text);
    let ghost all = views(list@);
    let mut r: Vec<String> = Vec::new();
    let n: usize = list.len();
    assert(views(r@) =~= names(all.take(0)));
    for i in 0..n
        invariant
            n == list@.len(),
            all == views(list@),
            views(r@) == names(all.take(i as int)),
    {
        proof {
            assert(all.take(i + 1).drop_last() =~= all.take(i as int));
            assert(all.take(i + 1).last() == list@[i as int]@);
        }
        let line = text_trim(list[i].as_str());
        if !line.as_str().is_empty() && !text_starts_with(line.as_str(), "==>") {
            extend_texts(&mut r, &text_words(line.as_str()));
        } else {
            assert(views(r@) + Seq::<Seq<char>>::empty() =~= views(r@));
        }
    }
    assert(all.take(n as int) =~= all);
    r
}

pub fn parse_search(text: &str, query: &str, instance_id: &str) -> (r: Vec<Candidate>)
    ensures
        views(r@) == found(text@, query@, instance_id@),
{
    let packages = all_names(text);
    assert(packages@.len() == views(packages@).len());
    let n: usize = if packages.len() < MAX_RAW_CANDIDATES {
        packages.len()
    } else {
        MAX_RAW_CANDIDATES
    };
    let ghost all = found(text@, query@, instance_id@);
    let mut r: Vec<Candidate> = Vec::new();
    assert(views(r@) =~= all.take(0));
    for i in 0..n
        invariant
            n <= packages@.len(),
            n == all.len(),
            views(packages@) == names(lines(text@)),
            all == found(text@, query@, instance_id@),
            views(r@) == all.take(i as int),
    {
        let candidate = Candidate {
            query: query.to_owned(),
            package: packages[i].clone(),
            match_name: packages[i].clone(),
            manager_instance_id: instance_id.to_owned(),
            manager: ManagerKind::Brew,
            source: "Homebrew formulae".to_owned(),
            version: None,
            description: None,
            score: score_match(query, packages[i].as_str()),
            match_kind: MatchKind::Unmatched,
            verified: true,
        };
        r.push(candidate);
        proof {
            assert(views(packages@)[i as int] == packages@[i as int]@);
            assert(all[i as int] == candidate@);
            assert(views(r@) =~= all.take(i + 1));
        }
    }
    assert(all.take(n as int) =~= all);
    r
}

/// The variables that keep an installation to what was asked for.
pub open spec fn install_environment() -> Seq<(Seq<char>, Seq<char>)> {
    env_of(
        seq![
            ("HOMEBREW_NO_AUTO_UPDATE"@, "1"@),
            ("HOMEBREW_NO_INSTALLED_DEPENDENTS_CHECK"@, "1"@),
            ("HOMEBREW_NO_INSTALL_CLEANUP"@, "1"@),
        ],
    )
}

fn make_environment() -> (r: EnvMap)
    ensures
        r@ == install_environment(),
{
    let ghost all = seq![
        ("HOMEBREW_NO_AUTO_UPDATE"@, "1"@),
        ("HOMEBREW_NO_INSTALLED_DEPENDENTS_CHECK"@, "1"@),
        ("HOMEBREW_NO_INSTALL_CLEANUP"@, "1"@),
    ];
    proof {
        reveal_with_fuel(env_of, 4);
        assert(all.drop_last() =~= all.take(2));
        assert(all.take(2).drop_last() =~= all.take(1));
        assert(all.take(1).drop_last() =~= all.take(0));
    }
    EnvMap::new().with("HOMEBREW_NO_AUTO_UPDATE", "1").with(
        "HOMEBREW_NO_INSTALLED_DEPENDENTS_CHECK",
        "1",
    ).with("HOMEBREW_NO_INSTALL_CLEANUP", "1")
}

impl ManagerAdapter for BrewAdapter {
    open spec fn manager(&self) -> ManagerKind {
        ManagerKind::Brew
    }

    fn kind(&self) -> (r: ManagerKind) {
        ManagerKind::Brew
    }

    open spec fn searchable(&self) -> bool {
        true
    }

    fn supports_search(&self) -> (r: bool) {
        true
    }

    open spec fn installable(&self) -> bool {
        true
    }

    fn supports_install(&self) -> (r: bool) {
        true
    }

    open spec fn fuzzy(&self) -> bool {
        false
    }

    fn supports_fuzzy_fallback(&self) -> (r: bool) {
        false
    }

    open spec fn probes(&self, host: HostView, context: ContextView) -> Seq<RequestView> {
        version_probes(
            user_commands(host, "brew"@, context.workspace_root),
            Seq::empty(),
            Seq::empty(),
            None,
        )
    }

    fn discovery_requests(&self, host: &Host, context: &ProjectContext) -> (r: Vec<CaptureRequest>) {
        let found = find_user_commands(host, "brew", &context.workspace_root);
        probe_versions(&found, &Vec::new(), &Vec::new(), &None)
    }

    open spec fn instances(
        &self,
        host: HostView,
        context: ContextView,
        replies: Seq<Option<OutputView>>,
    ) -> Seq<InstanceView> {
        plain_instances(
            ManagerKind::Brew,
            user_commands(host, "brew"@, context.workspace_root),
            replies,
        )
    }

    fn discover(
        &self,
        host: &Host,
        context: &ProjectContext,
        replies: &Vec<Option<CapturedOutput>>,
    ) -> (r: Vec<ManagerInstance>) {
        let found = find_user_commands(host, "brew", &context.workspace_root);
        make_instances(ManagerKind::Brew, &found, replies)
    }

    open spec fn asks(&self, host: HostView, instance: InstanceView, query: Seq<char>) -> Result<
        SearchRequestView,
        ErrorView,
    > {
        match query_verdict(query) {
            Err(e) => Err(e),
            Ok(_) => Ok(
                SearchRequestView::Run(
                    search_request(
                        instance.executable,
                        seq!["search"@, "--formula"@, query],
                        seq!["HOMEBREW_"@],
                        seq![
                            ("HOMEBREW_NO_AUTO_UPDATE"@, "1"@),
                            ("HOMEBREW_NO_ANALYTICS"@, "1"@),
                        ],
                    ),
                ),
            ),
        }
    }

    fn search_request(&self, host: &Host, instance: &ManagerInstance, query: &str) -> (r: Result<
        SearchRequest,
        Error,
    >) {
        match validate_query(query) {
            Err(e) => {
                return Err(e);
            },
            Ok(_) => {},
        }
        let args = list_of(&["search", "--formula", query]);
        let prefixes = list_of(&["HOMEBREW_"]);
        let mut env: Vec<EnvVar> = Vec::new();
        env.push(EnvVar { name: "HOMEBREW_NO_AUTO_UPDATE".to_owned(), value: "1".to_owned() });
        env.push(EnvVar { name: "HOMEBREW_NO_ANALYTICS".to_owned(), value: "1".to_owned() });
        assert(views(args@) =~= seq!["search"@, "--formula"@, query@]);
        assert(views(prefixes@) =~= seq!["HOMEBREW_"@]);
        assert(views(env@) =~= seq![
            ("HOMEBREW_NO_AUTO_UPDATE"@, "1"@),
            ("HOMEBREW_NO_ANALYTICS"@, "1"@),
        ]);
        Ok(SearchRequest::Run(search_command_sanitized(&instance.executable, args, prefixes, env)))
    }

    open spec fn finds(&self, instance: InstanceView, query: Seq<char>, reply: SearchReplyView) -> Result<
        Seq<CandidateView>,
        ErrorView,
    > {
        match reply {
            SearchReplyView::Output(output) => if output.success {
                Ok(found(output.stdout, query, instance.id))
            } else {
                Err(search_failure(output))
            },
            _ => Ok(Seq::empty()),
        }
    }

    fn search(&self, instance: &ManagerInstance, query: &str, reply: &SearchReply) -> (r: Result<
        Vec<Candidate>,
        Error,
    >) {
        match reply {
            SearchReply::Output(output) => if output.success {
                Ok(parse_search(output.stdout.as_str(), query, instance.id.as_str()))
            } else {
                Err(
                    Error::new(
                        ErrorKind::SearchFailed,
                        safe_diagnostic(text_trim(output.stderr.as_str()).as_str()).as_str(),
                    ),
                )
            },
            _ => Ok(Vec::new()),
        }
    }

    open spec fn targets(&self, host: HostView, instance: InstanceView, context: ContextView) -> Seq<
        TargetView,
    > {
        of_kind(context.targets, TargetKind::User)
    }

    fn compatible_targets(
        &self,
        host: &Host,
        instance: &ManagerInstance,
        context: &ProjectContext,
    ) -> (r: Vec<Target>) {
        targets_of_kind(&context.targets, TargetKind::User)
    }

    open spec fn plans(
        &self,
        host: HostView,
        instance: InstanceView,
        packages: Seq<Seq<char>>,
        target: TargetView,
        context: ContextView,
    ) -> Result<Seq<CommandView>, ErrorView> {
        if target.kind != TargetKind::User {
            Err(failure(ErrorKind::UnsupportedTarget, "brew only supports the user target"@))
        } else {
            Ok(
                seq![
                    CommandView {
                        label: batch_label("brew install "@, packages.len()),
                        program: instance.executable,
                        args: seq!["install"@, "--formula"@] + packages,
                        cwd: None,
                        env: install_environment(),
                        env_remove_prefixes: seq!["HOMEBREW_"@],
                        must_not_exist: None,
                        requires_admin: false,
                    },
                ],
            )
        }
    }

    fn plan(
        &self,
        host: &Host,
        instance: &ManagerInstance,
        packages: &Vec<String>,
        target: &Target,
        context: &ProjectContext,
    ) -> (r: Result<Vec<CommandSpec>, Error>) {
        if target.kind != TargetKind::User {
            return Err(
                Error::new(ErrorKind::UnsupportedTarget, "brew only supports the user target"),
            );
        }
        let mut args = list_of(&["install", "--formula"]);
        assert(views(args@) =~= seq!["install"@, "--formula"@]);
        extend_texts(&mut args, packages);
        let prefixes = list_of(&["HOMEBREW_"]);
        assert(views(prefixes@) =~= seq!["HOMEBREW_"@]);
        let step = CommandSpec {
            label: label_batch("brew install ", packages.len()),
            program: instance.executable.clone(),
            args,
            cwd: None,
            env: make_environment(),
            env_remove_prefixes: prefixes,
            must_not_exist: None,
            requires_admin: false,
        };
        let mut steps: Vec<CommandSpec> = Vec::new();
        steps.push(step);
        assert(views(steps@) =~= seq![step@]);
        Ok(steps)
    }
}

/// What Homebrew is told to install with: for the user target one step without
/// elevation, in which `brew` gets `install`, `--formula` and the packages, and neither
/// updates itself nor cleans up; any other target is refused.
pub proof fn law_brew_installs(
    host: HostView,
    instance: InstanceView,
    packages: Seq<Seq<char>>,
    target: TargetView,
    context: ContextView,
)
    ensures
        target.kind == TargetKind::User ==> (BrewAdapter.plans(
            host,
            instance,
            packages,
            target,
            context,
        ) matches Ok(steps) && {
            &&& steps.len() == 1
            &&& steps[0].program == instance.executable
            &&& steps[0].args == seq!["install"@, "--formula"@] + packages
            &&& !steps[0].requires_admin
            &&& steps[0].cwd is None
            &&& env_value(steps[0].env, "HOMEBREW_NO_AUTO_UPDATE"@) == Some("1"@)
            &&& env_value(steps[0].env, "HOMEBREW_NO_INSTALLED_DEPENDENTS_CHECK"@) == Some("1"@)
            &&& env_value(steps[0].env, "HOMEBREW_NO_INSTALL_CLEANUP"@) == Some("1"@)
            &&& steps[0].env_remove_prefixes == seq!["HOMEBREW_"@]
            &&& steps[0].must_not_exist is None
            &&& steps[0].label == "brew install "@ + decimal(packages.len()) + " package(s)"@
        }),
        target.kind != TargetKind::User ==> (BrewAdapter.plans(
            host,
            instance,
            packages,
            target,
            context,
        ) matches Err(e) && e.kind == ErrorKind::UnsupportedTarget),
{
    reveal_strlit("HOMEBREW_NO_AUTO_UPDATE");
    reveal_strlit("HOMEBREW_NO_INSTALLED_DEPENDENTS_CHECK");
    reveal_strlit("HOMEBREW_NO_INSTALL_CLEANUP");
    let pairs = seq![
        ("HOMEBREW_NO_AUTO_UPDATE"@, "1"@),
        ("HOMEBREW_NO_INSTALLED_DEPENDENTS_CHECK"@, "1"@),
        ("HOMEBREW_NO_INSTALL_CLEANUP"@, "1"@),
    ];
    law_last_value_is_set(pairs, 0, Seq::empty());
    law_last_value_is_set(pairs, 1, Seq::empty());
    law_last_value_is_set(pairs, 2, Seq::empty());
    assert(pairs[0].0.len() != pairs[1].0.len());
    assert(pairs[0].0.len() != pairs[2].0.len());
    assert(pairs[1].0.len() != pairs[2].0.len());
}

/// What Homebrew is asked with: `brew` gets `search`, `--formula` and the query.
pub proof fn law_brew_searches(host: HostView, instance: InstanceView, query: Seq<char>)
    ensures
        query_verdict(query) matches Err(e) ==> BrewAdapter.asks(host, instance, query) == Err::<
            SearchRequestView,
            ErrorView,
        >(e),
        query_verdict(query) is Ok ==> (BrewAdapter.asks(
            host,
            instance,
            query,
        ) matches Ok(SearchRequestView::Run(request)) && {
            &&& request.program == instance.executable
            &&& request.args == seq!["search"@, "--formula"@, query]
            &&& request.env_remove_prefixes == seq!["HOMEBREW_"@]
            &&& request.env == seq![
                ("HOMEBREW_NO_AUTO_UPDATE"@, "1"@),
                ("HOMEBREW_NO_ANALYTICS"@, "1"@),
            ]
            &&& request.cwd is None
            &&& request.seconds == 20
            &&& request.limit == 4_194_304
        }),
{
}

/// What `brew` printed is read line by line: a heading, which begins with `==>`, and a
/// blank line name nothing, and every word of any other line is a formula.
pub proof fn law_brew_output_is_read(list: Seq<Seq<char>>, line: Seq<char>)
    ensures
        names(Seq::empty()) == Seq::<Seq<char>>::empty(),
        is_blank(line) || starts_with(trim(line), "==>"@) ==> names(list.push(line)) == names(list),
        !is_blank(line) && !starts_with(trim(line), "==>"@) ==> names(list.push(line)) == names(
            list,
        ) + words(trim(line)),
{
    lemma_blank_trim(line);
    assert(list.push(line).drop_last() =~= list);
    assert(names(list) + Seq::<Seq<char>>::empty() =~= names(list));
}

/// What was found are the formulae that the lines of the output name, at most the first
/// forty; a search that did not succeed is an error with what the command complained of.
pub proof fn law_brew_finds(instance: InstanceView, query: Seq<char>, output: OutputView)
    ensures
        output.success ==> (BrewAdapter.finds(
            instance,
            query,
            SearchReplyView::Output(output),
        ) matches Ok(found) && {
            let told = names(lines(output.stdout));
            &&& found.len() == if told.len() > 40 {
                40
            } else {
                told.len()
            }
            &&& forall|i: int|
                0 <= i < found.len() ==> {
                    &&& (#[trigger] found[i]).package == told[i]
                    &&& found[i].match_name == told[i]
                    &&& found[i].query == query
                    &&& found[i].manager == ManagerKind::Brew
                    &&& found[i].manager_instance_id == instance.id
                    &&& found[i].version is None
                    &&& found[i].description is None
                    &&& found[i].verified
                    &&& found[i].source == "Homebrew formulae"@
                    &&& found[i].score == name_score(query, told[i])
                }
        }),
        !output.success ==> (BrewAdapter.finds(
            instance,
            query,
            SearchReplyView::Output(output),
        ) matches Err(e) && e.kind == ErrorKind::SearchFailed && e.message == diagnostic(
            trim(output.stderr),
        )),
{
}

} // verus!
