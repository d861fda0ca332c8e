//! pacman.

use vstd::prelude::*;

use crate::adapters::{
    at_most_one, batch_label, label_batch, list_of_option, make_instances, ManagerAdapter,
    MAX_RAW_CANDIDATES, name_score, of_kind, plain_instances, probe_versions, query_verdict,
    score_match, search_failure, SearchReply, SearchReplyView, SearchRequest, SearchRequestView,
    targets_of_kind, validate_query, version_probes,
};
use crate::context::{ContextView, ProjectContext};
use crate::error::{Error, ErrorKind, ErrorView, failure};
use crate::host::{Host, HostView};
use crate::model::{
    Candidate, CandidateView, CommandSpec, CommandView, EnvMap, InstanceView, ManagerInstance,
    ManagerKind, MatchKind, Target, TargetKind, TargetView,
};
use crate::path::PathView;
use crate::process::{
    CapturedOutput, CaptureRequest, diagnostic, find_trusted_system_executable, first_trusted,
    OutputView, RequestView, safe_diagnostic, search_command, search_request, system_places,
};
use crate::text::{
    cat2, cat3, chars_of, decimal, extend_texts, is_whitespace, law_split_at_the_first, lines,
    list_of, occurs_at, option_view, split_once, take_at_most, text_lines, text_split_once,
    text_trim, text_words, trim, views, whitespace_char, words,
};

verus! {

broadcast use crate::text::group_views;

#[derive(Debug, Clone, Copy, PartialEq, Eq, Structural)]
pub struct PacmanAdapter;

/// Whether a line belongs to the one above it.
pub open spec fn is_indented(line: Seq<char>) -> bool {
    line.len() > 0 && is_whitespace(line[0])
}

/// The repository and the package that a heading of `pacman -Ss` names.
pub open spec fn heading(line: Seq<char>) -> Option<(Seq<char>, Seq<char>)> {
    if is_indented(line) || words(line).len() == 0 {
        None
    } else {
        split_once(words(line)[0], "/"@)
    }
}

/// The description below the heading in line `i`, if there is one.
pub open spec fn description_below(list: Seq<Seq<char>>, i: int) -> Option<Seq<char>> {
    if i + 1 < list.len() && is_indented(list[i + 1]) {
        Some(trim(list[i + 1]))
    } else {
        None
    }
}

pub open spec fn repository_package(
    repository: Seq<char>,
    package: Seq<char>,
    version: Option<Seq<char>>,
    description: Option<Seq<char>>,
    query: Seq<char>,
    instance: Seq<char>,
) -> CandidateView {
    CandidateView {
        query,
        package: repository + "/"@ + package,
        match_name: package,
        manager_instance_id: instance,
        manager: ManagerKind::Pacman,
        source: "pacman repository "@ + repository,
        version,
        description,
        score: name_score(query, package),
        match_kind: MatchKind::Unmatched,
        verified: true,
    }
}

/// What the lines of `pacman -Ss` from `i` on tell of: a heading with the version,
/// and below it an indented description.
pub open spec fn pairs(
    list: Seq<Seq<char>>,
    i: int,
    query: Seq<char>,
    instance: Seq<char>,
) -> Seq<CandidateView>
    decreases list.len() - i,
{
    if i < 0 || i >= list.len() {
        Seq::empty()
    } else {
        match heading(list[i]) {
            None => pairs(list, i + 1, query, instance),
            Some((repository, package)) => {
                let version = if words(list[i]).len() > 1 {
                    Some(words(list[i])[1])
                } else {
                    None
                };
                let description = description_below(list, i);
                let next = if description is Some {
                    i + 2
                } else {
                    i + 1
                };
                seq![
                    repository_package(repository, package, version, description, query, instance),
                ] + pairs(list, next, query, instance)
            },
        }
    }
}

/// What `pacman -Ss` found.
pub open spec fn found(text: Seq<char>, query: Seq<char>, instance: Seq<char>) -> Seq<
    CandidateView,
> {
    take_at_most(pairs(lines(text), 0, query, instance), MAX_RAW_CANDIDATES as nat)
}

fn indented(line: &str) -> (r: bool)
    ensures
        r == is_indented(line@),
{
    let chars = chars_of(line);
    chars.len() > 0 && whitespace_char(chars[0])
}

pub fn parse_search(text: &str, query: &str, instance_id: &str) -> (r: Vec<Candidate>)
    ensures
        views(r@) == found(text@, query@, instance_id@),
{
    let list = text_lines(text);
    let ghost all = views(list@);
    let ghost total = pairs(all, 0, query@, instance_id@);
    let mut r: Vec<Candidate> = Vec::new();
    let n: usize = list.len();
    let mut i: usize = 0;
    assert(views(r@) + total =~= total);
    while i < n && r.len() < MAX_RAW_CANDIDATES
        invariant
            n == list@.len(),
            all == views(list@),
            i <= n,
            r@.len() <= MAX_RAW_CANDIDATES,
            total == pairs(all, 0, query@, instance_id@),
            views(r@) + pairs(all, i as int, query@, instance_id@) == total,
        decreases n - i,
    {
        let ghost line = all[i as int];
        assert(line == list@[i as int]@);
        let ghost before = views(r@);
        let fields = text_words(list[i].as_str());
        assert(fields@.len() == words(line).len());
        if indented(list[i].as_str()) || fields.len() == 0 {
            i = i + 1;
            continue ;
        }
        assert(views(fields@)[0] == fields@[0]@);
        let (repository, package) = match text_split_once(fields[0].as_str(), "/") {
            Some(pair) => pair,
            None => {
                i = i + 1;
                continue ;
            },
        };
        let version = if fields.len() > 1 {
            assert(views(fields@)[1] == fields@[1]@);
            Some(fields[1].clone())
        } else {
            None
        };
        let described = i + 1 < n && indented(list[i + 1].as_str());
        let description = if described {
            Some(text_trim(list[i + 1].as_str()))
        } else {
            None
        };
        assert(option_view(description) == description_below(all, i as int));
        let candidate = Candidate {
            query: query.to_owned(),
            package: cat3(repository.as_str(), "/", package.as_str()),
            match_name: package.clone(),
            manager_instance_id: instance_id.to_owned(),
            manager: ManagerKind::Pacman,
            source: cat2("pacman repository ", repository.as_str()),
            version,
            description,
            score: score_match(query, package.as_str()),
            match_kind: MatchKind::Unmatched,
            verified: true,
        };
        r.push(candidate);
        let next: usize = if described {
            i + 2
        } else {
            i + 1
        };
        proof {
            assert(pairs(all, i as int, query@, instance_id@) =~= seq![candidate@] + pairs(
                all,
                next as int,
                query@,
                instance_id@,
            ));
            assert(views(r@) + pairs(all, next as int, query@, instance_id@) =~= before + (seq![
                candidate@,
            ] + pairs(all, next as int, query@, instance_id@)));
        }
        i = next;
    }
    proof {
        assert(r@.len() == views(r@).len());
        if i == n {
            assert(views(r@) + Seq::<CandidateView>::empty() =~= views(r@));
            assert(views(r@) == total);
        } else {
            assert(total.take(MAX_RAW_CANDIDATES as int) =~= views(r@));
        }
        assert(views(r@) =~= take_at_most(total, MAX_RAW_CANDIDATES as nat));
    }
    r
}

/// Where pacman is found.
pub open spec fn executables(host: HostView) -> Seq<PathView> {
    at_most_one(first_trusted(host, system_places(host.platform, "pacman"@)))
}

impl ManagerAdapter for PacmanAdapter {
    open spec fn manager(&self) -> ManagerKind {
        ManagerKind::Pacman
    }

    fn kind(&self) -> (r: ManagerKind) {
        ManagerKind::Pacman
    }

    open spec fn searchable(&self) -> bool {
        true
    }

    fn supports_search(&self) -> (r: bool) {
        true
    }

    open spec fn installable(&self) -> bool {
        true
    }

    fn supports_install(&self) -> (r: bool) {
        true
    }

    open spec fn fuzzy(&self) -> bool {
        false
    }

    fn supports_fuzzy_fallback(&self) -> (r: bool) {
        false
    }

    open spec fn probes(&self, host: HostView, context: ContextView) -> Seq<RequestView> {
        version_probes(executables(host), Seq::empty(), Seq::empty(), None)
    }

    fn discovery_requests(&self, host: &Host, context: &ProjectContext) -> (r: Vec<CaptureRequest>) {
        let found = list_of_option(find_trusted_system_executable(host, "pacman"));
        probe_versions(&found, &Vec::new(), &Vec::new(), &None)
    }

    open spec fn instances(
        &self,
        host: HostView,
        context: ContextView,
        replies: Seq<Option<OutputView>>,
    ) -> Seq<InstanceView> {
        plain_instances(ManagerKind::Pacman, executables(host), replies)
    }

    fn discover(
        &self,
        host: &Host,
        context: &ProjectContext,
        replies: &Vec<Option<CapturedOutput>>,
    ) -> (r: Vec<ManagerInstance>) {
        let found = list_of_option(find_trusted_system_executable(host, "pacman"));
        make_instances(ManagerKind::Pacman, &found, replies)
    }

    open spec fn asks(&self, host: HostView, instance: InstanceView, query: Seq<char>) -> Result<
        SearchRequestView,
        ErrorView,
    > {
        match query_verdict(query) {
            Err(e) => Err(e),
            Ok(_) => Ok(
                SearchRequestView::Run(
                    search_request(
                        instance.executable,
                        seq!["-Ss"@, "--color"@, "never"@, query],
                        Seq::empty(),
                        Seq::empty(),
                    ),
                ),
            ),
        }
    }

    fn search_request(&self, host: &Host, instance: &ManagerInstance, query: &str) -> (r: Result<
        SearchRequest,
        Error,
    >) {
        match validate_query(query) {
            Err(e) => {
                return Err(e);
            },
            Ok(_) => {},
        }
        let args = list_of(&["-Ss", "--color", "never", query]);
        assert(views(args@) =~= seq!["-Ss"@, "--color"@, "never"@, query@]);
        Ok(SearchRequest::Run(search_command(&instance.executable, args)))
    }

    open spec fn finds(&self, instance: InstanceView, query: Seq<char>, reply: SearchReplyView) -> Result<
        Seq<CandidateView>,
        ErrorView,
    > {
        match reply {
            SearchReplyView::Output(output) => if output.success {
                Ok(found(output.stdout, query, instance.id))
            } else {
                Err(search_failure(output))
            },
            _ => Ok(Seq::empty()),
        }
    }

    fn search(&self, instance: &ManagerInstance, query: &str, reply: &SearchReply) -> (r: Result<
        Vec<Candidate>,
        Error,
    >) {
        match reply {
            SearchReply::Output(output) => if output.success {
                Ok(parse_search(output.stdout.as_str(), query, instance.id.as_str()))
            } else {
                Err(
                    Error::new(
                        ErrorKind::SearchFailed,
                        safe_diagnostic(text_trim(output.stderr.as_str()).as_str()).as_str(),
                    ),
                )
            },
            _ => Ok(Vec::new()),
        }
    }

    open spec fn targets(&self, host: HostView, instance: InstanceView, context: ContextView) -> Seq<
        TargetView,
    > {
        of_kind(context.targets, TargetKind::System)
    }

    fn compatible_targets(
        &self,
        host: &Host,
        instance: &ManagerInstance,
        context: &ProjectContext,
    ) -> (r: Vec<Target>) {
        targets_of_kind(&context.targets, TargetKind::System)
    }

    open spec fn plans(
        &self,
        host: HostView,
        instance: InstanceView,
        packages: Seq<Seq<char>>,
        target: TargetView,
        context: ContextView,
    ) -> Result<Seq<CommandView>, ErrorView> {
        if target.kind != TargetKind::System {
            Err(failure(ErrorKind::UnsupportedTarget, "pacman only supports the system target"@))
        } else {
            Ok(
                seq![
                    CommandView {
                        label: batch_label("pacman install "@, packages.len()),
                        program: instance.executable,
                        args: seq!["-S"@, "--needed"@, "--"@] + packages,
                        cwd: None,
                        env: Seq::empty(),
                        env_remove_prefixes: Seq::empty(),
                        must_not_exist: None,
                        requires_admin: true,
                    },
                ],
            )
        }
    }

    fn plan(
        &self,
        host: &Host,
        instance: &ManagerInstance,
        packages: &Vec<String>,
        target: &Target,
        context: &ProjectContext,
    ) -> (r: Result<Vec<CommandSpec>, Error>) {
        if target.kind != TargetKind::System {
            return Err(
                Error::new(ErrorKind::UnsupportedTarget, "pacman only supports the system target"),
            );
        }
        let mut args = list_of(&["-S", "--needed", "--"]);
        assert(views(args@) =~= seq!["-S"@, "--needed"@, "--"@]);
        extend_texts(&mut args, packages);
        let step = CommandSpec {
            label: label_batch("pacman install ", packages.len()),
            program: instance.executable.clone(),
            args,
            cwd: None,
            env: EnvMap::new(),
            env_remove_prefixes: Vec::new(),
            must_not_exist: None,
            requires_admin: true,
        };
        let mut steps: Vec<CommandSpec> = Vec::new();
        steps.push(step);
        assert(views(steps@) =~= seq![step@]);
        Ok(steps)
    }
}

/// What pacman is told to install with: for the system target one elevated step, in
/// which pacman gets `-S`, `--needed`, `--` and the packages; any other target is
/// refused.
pub proof fn law_pacman_installs(
    host: HostView,
    instance: InstanceView,
    packages: Seq<Seq<char>>,
    target: TargetView,
    context: ContextView,
)
    ensures
        target.kind == TargetKind::System ==> (PacmanAdapter.plans(
            host,
            instance,
            packages,
            target,
            context,
        ) matches Ok(steps) && {
            &&& steps.len() == 1
            &&& steps[0].program == instance.executable
            &&& steps[0].args == seq!["-S"@, "--needed"@, "--"@] + packages
            &&& steps[0].requires_admin
            &&& steps[0].cwd is None
            &&& steps[0].env.len() == 0
            &&& steps[0].env_remove_prefixes.len() == 0
            &&& steps[0].must_not_exist is None
            &&& steps[0].label == "pacman install "@ + decimal(packages.len()) + " package(s)"@
        }),
        target.kind != TargetKind::System ==> (PacmanAdapter.plans(
            host,
            instance,
            packages,
            target,
            context,
        ) matches Err(e) && e.kind == ErrorKind::UnsupportedTarget),
{
}

/// What pacman is asked with: it gets `-Ss`, so that it searches the repositories,
/// `--color`, `never` and the query.
pub proof fn law_pacman_searches(host: HostView, instance: InstanceView, query: Seq<char>)
    ensures
        query_verdict(query) matches Err(e) ==> PacmanAdapter.asks(host, instance, query) == Err::<
            SearchRequestView,
            ErrorView,
        >(e),
        query_verdict(query) is Ok ==> (PacmanAdapter.asks(
            host,
            instance,
            query,
        ) matches Ok(SearchRequestView::Run(request)) && {
            &&& request.program == instance.executable
            &&& request.args == seq!["-Ss"@, "--color"@, "never"@, query]
            &&& request.env_remove_prefixes.len() == 0
            &&& request.env.len() == 0
            &&& request.cwd is None
            &&& request.seconds == 20
            &&& request.limit == 4_194_304
        }),
{
}

/// What pacman printed is read from the top: a line that is not indented and begins
/// with a repository, a slash and a package names that package, with the second word
/// as its version; an indented line right below describes it. Every other line says
/// nothing.
pub proof fn law_pacman_output_is_read(
    list: Seq<Seq<char>>,
    i: int,
    repository: Seq<char>,
    package: Seq<char>,
    query: Seq<char>,
    instance: Seq<char>,
)
    requires
        0 <= i < list.len(),
        list[i].len() > 0,
        !is_whitespace(list[i][0]),
        words(list[i]).len() > 0,
        words(list[i])[0] == repository + "/"@ + package,
        forall|j: int| 0 <= j < repository.len() ==> repository[j] != '/',
    ensures
        ({
            let described = i + 1 < list.len() && list[i + 1].len() > 0 && is_whitespace(
                list[i + 1][0],
            );
            let after = pairs(list, i, query, instance);
            let c = after[0];
            &&& after == seq![c] + pairs(
                list,
                if described {
                    i + 2
                } else {
                    i + 1
                },
                query,
                instance,
            )
            &&& c.query == query
            &&& c.package == repository + "/"@ + package
            &&& c.match_name == package
            &&& c.manager == ManagerKind::Pacman
            &&& c.manager_instance_id == instance
            &&& c.version == if words(list[i]).len() > 1 {
                Some(words(list[i])[1])
            } else {
                None
            }
            &&& c.description == if described {
                Some(trim(list[i + 1]))
            } else {
                None
            }
            &&& c.verified
            &&& c.source == "pacman repository "@ + repository
            &&& c.score == name_score(query, package)
        }),
{
    reveal_strlit("/");
    let all = repository + "/"@ + package;
    assert forall|j: int| 0 <= j < repository.len() implies !#[trigger] occurs_at(all, "/"@, j) by {
        if occurs_at(all, "/"@, j) {
            assert(all.subrange(j, j + 1)[0] == all[j]);
            assert(all[j] == repository[j]);
        }
    }
    law_split_at_the_first(repository, "/"@, package);
    assert(pairs(list, i, query, instance) =~= seq![pairs(list, i, query, instance)[0]] + pairs(
        list,
        if i + 1 < list.len() && is_indented(list[i + 1]) {
            i + 2
        } else {
            i + 1
        },
        query,
        instance,
    ));
}

/// A line that is indented, or has no word, or whose first word has no slash, is passed
/// over where a heading could stand; behind the last line there is nothing.
pub proof fn law_pacman_passes_over_other_lines(
    list: Seq<Seq<char>>,
    i: int,
    query: Seq<char>,
    instance: Seq<char>,
)
    ensures
        pairs(list, list.len() as int, query, instance) == Seq::<CandidateView>::empty(),
        0 <= i < list.len() && ((list[i].len() > 0 && is_whitespace(list[i][0])) || words(
            list[i],
        ).len() == 0 || (forall|j: int|
            0 <= j < words(list[i])[0].len() ==> words(list[i])[0][j] != '/')) ==> pairs(
            list,
            i,
            query,
            instance,
        ) == pairs(list, i + 1, query, instance),
{
    if 0 <= i < list.len() && words(list[i]).len() > 0 && (forall|j: int|
        0 <= j < words(list[i])[0].len() ==> words(list[i])[0][j] != '/') {
        let word = words(list[i])[0];
        reveal_strlit("/");
        assert forall|j: int| 0 <= j implies !#[trigger] occurs_at(word, "/"@, j) by {
            if occurs_at(word, "/"@, j) {
                assert(word.subrange(j, j + 1)[0] == word[j]);
            }
        }
        law_split_at_the_first(word, "/"@, Seq::empty());
    }
}

/// What was found is what the lines of the output tell of, at most the first forty; a
/// search that did not succeed is an error with what the command complained of.
pub proof fn law_pacman_finds(instance: InstanceView, query: Seq<char>, output: OutputView)
    ensures
        output.success ==> (PacmanAdapter.finds(
            instance,
            query,
            SearchReplyView::Output(output),
        ) matches Ok(found) && {
            let told = pairs(lines(output.stdout), 0, query, instance.id);
            found == if told.len() > 40 {
                told.take(40)
            } else {
                told
            }
        }),
        !output.success ==> (PacmanAdapter.finds(
            instance,
            query,
            SearchReplyView::Output(output),
        ) matches Err(e) && e.kind == ErrorKind::SearchFailed && e.message == diagnostic(
            trim(output.stderr),
        )),
{
}

} // verus!
