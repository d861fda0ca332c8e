//! npm.

use vstd::prelude::*;

use crate::adapters::{
    batch_label, label_batch, ManagerAdapter, MAX_RAW_CANDIDATES, name_score, of_kinds,
    package_verdict, query_verdict, replies_view, score_match, SearchReply, SearchReplyView,
    SearchRequest, SearchRequestView, targets_of_kinds, validate_package_id, validate_query,
};
use crate::adapters::lang::{is_semantic_version, semantic_version};
use crate::adapters::lang::cargo::{find_neutral_directory, neutral_directory};
use crate::adapters::lang::node::{
    discover_launchers, launcher_instance, launcher_version_request, LauncherView,
    make_launcher_instance, make_version_request, node_launchers, node_removals, NodeLauncher,
    owned_env_removals,
};
use crate::context::{ContextView, ProjectContext};
use crate::error::{
    debug_quoted, debug_text, Error, ErrorKind, ErrorView, failure, outcome, outcome_list, verdict,
};
use crate::host::{Host, HostView};
use crate::json::{json_records, JsonRecord, records_of};
use crate::model::{
    Candidate, CandidateView, CommandSpec, CommandView, env_of, env_value, EnvMap, EnvVar,
    InstanceScope, InstanceView, law_last_value_is_set, ManagerInstance, ManagerKind, MatchKind,
    ScopeView, Target, TargetKind, TargetView,
};
use crate::order::{insert_sorted, sorted_insert};
use crate::path::{FilePath, path_child, path_exact, path_in, path_same, path_text, PathView, written_path};
use crate::platform::{creation_path, null_device, null_file, resolve_for_creation};
use crate::process::{
    caused, CaptureRequest, CapturedOutput, diagnostic, first_line, first_text_line, OutputView,
    RequestView, safe_diagnostic, search_command_sanitized, search_request, version_line,
    version_text,
};
use crate::text::{
    ascii_alphanumeric_char, cat2, cat3, cat4, chars_of, extend_texts, find_last, has_control,
    is_ascii_alphanumeric, is_control, is_whitespace, law_split_at_the_first, law_split_at_the_last,
    lemma_find_last, lines, list_of, occurs_at, option_view, rsplit_once, split_once,
    starts_with_char, take_at_most, text_between, text_has_control, text_lines, text_rsplit_once,
    text_split_once, text_trim, trim, views,
};

verus! {

broadcast use crate::text::group_views;

#[derive(Debug, Clone, Copy, PartialEq, Eq, Structural)]
pub struct NpmAdapter;

// ---------------------------------------------------------------------------
// Names and specifications
// ---------------------------------------------------------------------------

pub open spec fn is_component_char(c: char) -> bool {
    is_ascii_alphanumeric(c) || c == '-' || c == '.' || c == '_' || c == '~'
}

/// Whether a text can be a scope or a name within one.
pub open spec fn is_name_component(component: Seq<char>) -> bool {
    &&& component.len() > 0
    &&& component[0] != '.'
    &&& component[0] != '_'
    &&& forall|i: int| 0 <= i < component.len() ==> is_component_char(#[trigger] component[i])
}

/// Whether a text can be the name of a package, with or without a scope.
pub open spec fn is_npm_name(package: Seq<char>) -> bool {
    if package.len() > 214 {
        false
    } else if package.len() > 0 && package[0] == '@' {
        split_once(package.skip(1), "/"@) matches Some((scope, name)) && is_name_component(scope)
            && is_name_component(name)
    } else {
        is_name_component(package)
    }
}

pub fn valid_npm_name_component(component: &str) -> (r: bool)
    ensures
        r == is_name_component(component@),
{
    let chars = chars_of(component);
    let n: usize = chars.len();
    if n == 0 || chars[0] == '.' || chars[0] == '_' {
        return false;
    }
    for i in 0..n
        invariant
            n == chars@.len(),
            chars@ == component@,
            forall|j: int| 0 <= j < i ==> is_component_char(#[trigger] component@[j]),
    {
        let c = chars[i];
        if !(ascii_alphanumeric_char(c) || c == '-' || c == '.' || c == '_' || c == '~') {
            assert(!is_component_char(component@[i as int]));
            return false;
        }
    }
    true
}

fn behind_first(s: &str) -> (r: String)
    requires
        s@.len() > 0,
    ensures
        r@ == s@.skip(1),
{
    let chars = chars_of(s);
    let r = text_between(&chars, 1, chars.len());
    assert(r@ =~= s@.skip(1));
    r
}

pub fn valid_npm_package_name(package: &str) -> (r: bool)
    ensures
        r == is_npm_name(package@),
{
    if chars_of(package).len() > 214 {
        return false;
    }
    if starts_with_char(package, '@') {
        match text_split_once(behind_first(package).as_str(), "/") {
            Some((scope, name)) => valid_npm_name_component(scope.as_str())
                && valid_npm_name_component(name.as_str()),
            None => false,
        }
    } else {
        valid_npm_name_component(package)
    }
}

pub open spec fn not_pinned(spec: Seq<char>) -> ErrorView {
    failure(
        ErrorKind::NotPinned,
        "npm package "@ + debug_text(spec) + " is not pinned to an exact registry version"@,
    )
}

/// What is wrong with a specification, given whether what follows its last `@` is
/// a semantic version.
pub open spec fn spec_verdict_by(spec: Seq<char>, semantic: bool) -> Result<(), ErrorView> {
    match package_verdict(spec) {
        Err(e) => Err(e),
        Ok(_) => match rsplit_once(spec, '@') {
            None => Err(not_pinned(spec)),
            Some((package, version)) => if is_npm_name(package) && semantic {
                Ok(())
            } else {
                Err(not_pinned(spec))
            },
        },
    }
}

/// Whether what follows the last `@` is a semantic version.
pub open spec fn names_version(spec: Seq<char>) -> bool {
    rsplit_once(spec, '@') matches Some((_, version)) && semantic_version(version)
}

/// What is wrong with a specification: it has to be a package, `@` and a version.
pub open spec fn spec_verdict(spec: Seq<char>) -> Result<(), ErrorView> {
    spec_verdict_by(spec, names_version(spec))
}

fn refuse_unpinned(spec: &str) -> (r: Error)
    ensures
        r@ == not_pinned(spec@),
{
    Error::new(
        ErrorKind::NotPinned,
        cat3(
            "npm package ",
            debug_quoted(spec).as_str(),
            " is not pinned to an exact registry version",
        ).as_str(),
    )
}

/// Checks a specification, given whether what follows its last `@` is a semantic
/// version.
pub fn check_exact_npm_spec(spec: &str, semantic: bool) -> (r: Result<(), Error>)
    ensures
        verdict(r) == spec_verdict_by(spec@, semantic),
{
    match validate_package_id(spec) {
        Err(e) => {
            return Err(e);
        },
        Ok(_) => {},
    }
    match text_rsplit_once(spec, '@') {
        None => Err(refuse_unpinned(spec)),
        Some((package, _)) => if valid_npm_package_name(package.as_str()) && semantic {
            Ok(())
        } else {
            Err(refuse_unpinned(spec))
        },
    }
}

pub fn validate_exact_npm_spec(spec: &str) -> (r: Result<(), Error>)
    ensures
        verdict(r) == spec_verdict(spec@),
{
    let semantic = match text_rsplit_once(spec, '@') {
        Some((_, version)) => is_semantic_version(version.as_str()),
        None => false,
    };
    check_exact_npm_spec(spec, semantic)
}

/// A package, `@` and a version make a specification that can be planned.
pub proof fn lemma_pinned_spec(package: Seq<char>, version: Seq<char>)
    requires
        package_verdict(package) is Ok,
        is_npm_name(package),
        semantic_version(version),
    ensures
        package_verdict(package + "@"@ + version) is Ok,
        spec_verdict(package + "@"@ + version) is Ok,
{
    let spec = package + "@"@ + version;
    reveal_strlit("@");
    assert(spec[0] == package[0]);
    let black = choose|i: int| 0 <= i < package.len() && !is_whitespace(#[trigger] package[i]);
    assert(!is_whitespace(spec[black]));
    assert forall|i: int| 0 <= i < spec.len() implies !is_control(#[trigger] spec[i]) by {
        if i < package.len() {
            assert(spec[i] == package[i]);
        } else if i > package.len() {
            assert(spec[i] == version[i - package.len() - 1]);
        }
    }
    lemma_find_last(spec, '@');
    let at = find_last(spec, '@')->0;
    assert(spec[package.len() as int] == '@');
    if at > package.len() {
        assert(spec[at] == version[at - package.len() - 1]);
    }
    assert(spec.take(at) =~= package);
    assert(spec.skip(at + 1) =~= version);
}

/// What is wrong with the first wrong specification.
pub open spec fn specs_verdict(packages: Seq<Seq<char>>) -> Result<(), ErrorView>
    decreases packages.len(),
{
    if packages.len() == 0 {
        Ok(())
    } else {
        match specs_verdict(packages.drop_last()) {
            Err(e) => Err(e),
            Ok(_) => spec_verdict(packages.last()),
        }
    }
}

proof fn lemma_specs_verdict_stops(packages: Seq<Seq<char>>, n: int)
    requires
        0 <= n <= packages.len(),
        specs_verdict(packages.take(n)) is Err,
    ensures
        specs_verdict(packages) == specs_verdict(packages.take(n)),
    decreases packages.len() - n,
{
    if n < packages.len() {
        assert(packages.take(n + 1).drop_last() =~= packages.take(n));
        lemma_specs_verdict_stops(packages, n + 1);
    } else {
        assert(packages.take(n) =~= packages);
    }
}

fn validate_specs(packages: &Vec<String>) -> (r: Result<(), Error>)
    ensures
        verdict(r) == specs_verdict(views(packages@)),
{
    let ghost all = views(packages@);
    let n: usize = packages.len();
    for i in 0..n
        invariant
            n == packages@.len(),
            all == views(packages@),
            specs_verdict(all.take(i as int)) == Ok::<(), ErrorView>(()),
    {
        proof {
            assert(all.take(i + 1).drop_last() =~= all.take(i as int));
            assert(all.take(i + 1).last() == packages@[i as int]@);
        }
        match validate_exact_npm_spec(packages[i].as_str()) {
            Ok(_) => {},
            Err(e) => {
                proof {
                    lemma_specs_verdict_stops(all, i + 1);
                }
                return Err(e);
            },
        }
    }
    assert(all.take(n as int) =~= all);
    Ok(())
}

/// The scope that a specification names, with its `@`.
pub open spec fn scope_of(spec: Seq<char>) -> Option<Seq<char>> {
    match rsplit_once(spec, '@') {
        None => None,
        Some((package, _)) => if package.len() > 0 && package[0] == '@' {
            match split_once(package.skip(1), "/"@) {
                Some((scope, _)) => if scope.len() > 0 {
                    Some("@"@ + scope)
                } else {
                    None
                },
                None => None,
            }
        } else {
            None
        },
    }
}

/// The scopes that specifications name, each once, in order.
pub open spec fn scopes(packages: Seq<Seq<char>>) -> Seq<Seq<char>>
    decreases packages.len(),
{
    if packages.len() == 0 {
        Seq::empty()
    } else {
        match scope_of(packages.last()) {
            Some(scope) => sorted_insert(scopes(packages.drop_last()), scope),
            None => scopes(packages.drop_last()),
        }
    }
}

fn find_scope(spec: &str) -> (r: Option<String>)
    ensures
        option_view(r) == scope_of(spec@),
{
    match text_rsplit_once(spec, '@') {
        None => None,
        Some((package, _)) => if starts_with_char(package.as_str(), '@') {
            match text_split_once(behind_first(package.as_str()).as_str(), "/") {
                Some((scope, _)) => if scope.as_str().is_empty() {
                    None
                } else {
                    Some(cat2("@", scope.as_str()))
                },
                None => None,
            }
        } else {
            None
        },
    }
}

pub fn package_scopes(packages: &Vec<String>) -> (r: Vec<String>)
    ensures
        views(r@) == scopes(views(packages@)),
{
    let ghost all = views(packages@);
    let mut r: Vec<String> = Vec::new();
    let n: usize = packages.len();
    assert(views(r@) =~= scopes(all.take(0)));
    for i in 0..n
        invariant
            n == packages@.len(),
            all == views(packages@),
            views(r@) == scopes(all.take(i as int)),
    {
        proof {
            assert(all.take(i + 1).drop_last() =~= all.take(i as int));
            assert(all.take(i + 1).last() == packages@[i as int]@);
        }
        if let Some(scope) = find_scope(packages[i].as_str()) {
            insert_sorted(&mut r, scope);
        }
    }
    assert(all.take(n as int) =~= all);
    r
}

// ---------------------------------------------------------------------------
// The global prefix
// ---------------------------------------------------------------------------

/// The request for the global prefix.
pub open spec fn prefix_request(host: HostView, launcher: LauncherView) -> RequestView {
    search_request(
        launcher.program,
        launcher.launcher_args + seq!["prefix"@, "--global"@, "--color=false"@],
        node_removals(),
        seq![
            ("NPM_CONFIG_COLOR"@, "false"@),
            ("NPM_CONFIG_USERCONFIG"@, null_file(host.platform)),
        ],
    )
}

fn make_prefix_request(host: &Host, launcher: &NodeLauncher) -> (r: CaptureRequest)
    ensures
        r@ == prefix_request(host@, launcher@),
{
    let args = list_of(&["prefix", "--global", "--color=false"]);
    assert(views(args@) =~= seq!["prefix"@, "--global"@, "--color=false"@]);
    let mut env: Vec<EnvVar> = Vec::new();
    env.push(EnvVar { name: "NPM_CONFIG_COLOR".to_owned(), value: "false".to_owned() });
    env.push(
        EnvVar {
            name: "NPM_CONFIG_USERCONFIG".to_owned(),
            value: null_device(host.platform).to_owned(),
        },
    );
    assert(views(env@) =~= seq![
        ("NPM_CONFIG_COLOR"@, "false"@),
        ("NPM_CONFIG_USERCONFIG"@, null_file(host@.platform)),
    ]);
    search_command_sanitized(
        &launcher.program,
        launcher.prepend_launcher(args),
        owned_env_removals(),
        env,
    )
}

/// The path that npm printed as its global prefix.
pub open spec fn printed_prefix(
    host: HostView,
    context: ContextView,
    reply: Option<OutputView>,
) -> Option<PathView> {
    match reply {
        None => None,
        Some(output) => if !output.success {
            None
        } else {
            match first_line(lines(output.stdout)) {
                None => None,
                Some(value) => if has_control(value) {
                    None
                } else {
                    Some(path_in(context.cwd, written_path(host.platform, value)))
                },
            }
        },
    }
}

/// The path that npm printed as its global prefix.
pub fn printed_global_prefix(
    host: &Host,
    context: &ProjectContext,
    reply: &Option<CapturedOutput>,
) -> (r: Option<FilePath>)
    ensures
        option_view(r) == printed_prefix(host@, context@, option_view(*reply)),
{
    match reply {
        None => None,
        Some(output) => {
            if !output.success {
                return None;
            }
            match first_text_line(&text_lines(output.stdout.as_str())) {
                None => None,
                Some(value) => if text_has_control(value.as_str()) {
                    None
                } else {
                    Some(context.cwd.resolve(&FilePath::parse(host.platform, value.as_str())))
                },
            }
        },
    }
}

/// What an instance is bound to: the global prefix that npm printed, if it can be
/// resolved.
pub open spec fn prefix_scope(
    host: HostView,
    context: ContextView,
    reply: Option<OutputView>,
) -> ScopeView {
    match printed_prefix(host, context, reply) {
        None => ScopeView::Generic,
        Some(path) => match creation_path(host, path) {
            Ok(prefix) => ScopeView::NodeGlobal(prefix),
            Err(_) => ScopeView::Generic,
        },
    }
}

pub fn discover_global_prefix(
    host: &Host,
    context: &ProjectContext,
    reply: &Option<CapturedOutput>,
) -> (r: InstanceScope)
    ensures
        r@ == prefix_scope(host@, context@, option_view(*reply)),
{
    match printed_global_prefix(host, context, reply) {
        None => InstanceScope::Generic,
        Some(path) => match resolve_for_creation(host, &path) {
            Ok(prefix) => InstanceScope::NodeGlobal(prefix),
            Err(_) => InstanceScope::Generic,
        },
    }
}

/// The target that a global prefix is.
pub open spec fn global_target(host: HostView, prefix: PathView) -> TargetView {
    TargetView {
        id: "node-global:"@ + path_text(prefix),
        kind: TargetKind::NodeGlobal,
        label: "npm global prefix "@ + path_text(prefix),
        path: Some(prefix),
        exists: host.is_dir(prefix),
    }
}

pub fn node_global_target(host: &Host, prefix: &FilePath) -> (r: Target)
    ensures
        r@ == global_target(host@, prefix@),
{
    let text = prefix.text();
    Target {
        id: cat2("node-global:", text.as_str()),
        kind: TargetKind::NodeGlobal,
        label: cat2("npm global prefix ", text.as_str()),
        path: Some(prefix.clone()),
        exists: host.is_dir(prefix),
    }
}

/// For each launcher the request for its version and that for its prefix.
pub open spec fn npm_probes(host: HostView, launchers: Seq<LauncherView>) -> Seq<RequestView>
    decreases launchers.len(),
{
    if launchers.len() == 0 {
        Seq::empty()
    } else {
        npm_probes(host, launchers.drop_last()).push(
            launcher_version_request(launchers.last()),
        ).push(prefix_request(host, launchers.last()))
    }
}

/// There are two requests for each launcher.
pub proof fn lemma_npm_probes(host: HostView, launchers: Seq<LauncherView>)
    ensures
        npm_probes(host, launchers).len() == 2 * launchers.len(),
    decreases launchers.len(),
{
    if launchers.len() > 0 {
        lemma_npm_probes(host, launchers.drop_last());
    }
}

/// One instance for each launcher, with the version and the prefix that it printed.
pub open spec fn npm_instances(
    host: HostView,
    context: ContextView,
    launchers: Seq<LauncherView>,
    replies: Seq<Option<OutputView>>,
) -> Seq<InstanceView> {
    Seq::new(
        launchers.len(),
        |i: int|
            launcher_instance(
                ManagerKind::Npm,
                launchers[i],
                version_line(replies[2 * i]),
                prefix_scope(host, context, replies[2 * i + 1]),
            ),
    )
}

// ---------------------------------------------------------------------------
// Search
// ---------------------------------------------------------------------------

/// The candidate that an entry of the search result tells of, given whether its
/// version is a semantic one.
pub open spec fn entry_candidate(
    entry: Seq<Option<Seq<char>>>,
    semantic: bool,
    query: Seq<char>,
    instance: Seq<char>,
) -> Option<CandidateView> {
    match (entry[0], entry[1]) {
        (Some(name), Some(version)) => {
            let package = trim(name);
            if package.len() == 0 || trim(version).len() == 0 || package_verdict(package) is Err
                || !is_npm_name(package) || !semantic {
                None
            } else {
                Some(
                    CandidateView {
                        query,
                        package,
                        match_name: package,
                        manager_instance_id: instance,
                        manager: ManagerKind::Npm,
                        source: "https://registry.npmjs.org/"@,
                        version: Some(trim(version)),
                        description: match entry[2] {
                            Some(description) => if trim(description).len() == 0 {
                                None
                            } else {
                                Some(trim(description))
                            },
                            None => None,
                        },
                        score: name_score(query, package),
                        match_kind: MatchKind::Unmatched,
                        verified: true,
                    },
                )
            }
        },
        _ => None,
    }
}

/// Whether an entry has a semantic version.
pub open spec fn entry_is_semantic(entry: Seq<Option<Seq<char>>>) -> bool {
    entry[1] matches Some(version) && semantic_version(trim(version))
}

/// The candidates that entries tell of.
pub open spec fn entry_candidates(
    entries: Seq<Seq<Option<Seq<char>>>>,
    query: Seq<char>,
    instance: Seq<char>,
) -> Seq<CandidateView>
    decreases entries.len(),
{
    if entries.len() == 0 {
        Seq::empty()
    } else {
        let rest = entry_candidates(entries.drop_last(), query, instance);
        match entry_candidate(
            entries.last(),
            entry_is_semantic(entries.last()),
            query,
            instance,
        ) {
            Some(candidate) => rest.push(candidate),
            None => rest,
        }
    }
}

/// Each candidate that entries tell of has a name that a package can have and a
/// semantic version.
pub proof fn lemma_entry_candidates(
    entries: Seq<Seq<Option<Seq<char>>>>,
    query: Seq<char>,
    instance: Seq<char>,
    i: int,
)
    requires
        0 <= i < entry_candidates(entries, query, instance).len(),
    ensures
        ({
            let candidate = entry_candidates(entries, query, instance)[i];
            &&& candidate.manager == ManagerKind::Npm
            &&& package_verdict(candidate.package) is Ok
            &&& is_npm_name(candidate.package)
            &&& candidate.version matches Some(version) && semantic_version(version)
        }),
    decreases entries.len(),
{
    if i < entry_candidates(entries.drop_last(), query, instance).len() {
        lemma_entry_candidates(entries.drop_last(), query, instance, i);
    }
}

/// What is looked at in an entry.
pub open spec fn entry_keys() -> Seq<Seq<char>> {
    seq!["name"@, "version"@, "description"@]
}

/// What a search result tells of, given what it is in JSON.
pub open spec fn found_in(
    records: Result<Option<Seq<Seq<Option<Seq<char>>>>>, Seq<char>>,
    query: Seq<char>,
    instance: Seq<char>,
) -> Result<Seq<CandidateView>, ErrorView> {
    match records {
        Err(cause) => Err(
            caused(ErrorKind::InvalidSearchOutput, "npm search returned invalid JSON"@, cause),
        ),
        Ok(None) => Err(
            failure(
                ErrorKind::InvalidSearchOutput,
                "npm search returned a non-array JSON value"@,
            ),
        ),
        Ok(Some(entries)) => Ok(
            take_at_most(entry_candidates(entries, query, instance), MAX_RAW_CANDIDATES as nat),
        ),
    }
}

/// What `npm search` found.
pub open spec fn found(text: Seq<char>, query: Seq<char>, instance: Seq<char>) -> Result<
    Seq<CandidateView>,
    ErrorView,
> {
    found_in(records_of(text, entry_keys()), query, instance)
}

/// The candidate that an entry tells of, given whether its version is a semantic
/// one.
pub fn candidate_from_entry(entry: &JsonRecord, semantic: bool, query: &str, instance_id: &str) -> (r:
    Option<Candidate>)
    requires
        entry.values@.len() == 3,
    ensures
        option_view(r) == entry_candidate(entry@, semantic, query@, instance_id@),
{
    assert(entry@[0] == option_view(entry.values@[0]));
    assert(entry@[1] == option_view(entry.values@[1]));
    assert(entry@[2] == option_view(entry.values@[2]));
    let (package, version) = match (&entry.values[0], &entry.values[1]) {
        (Some(name), Some(version)) => (text_trim(name.as_str()), text_trim(version.as_str())),
        _ => {
            return None;
        },
    };
    if package.as_str().is_empty() || version.as_str().is_empty() || validate_package_id(
        package.as_str(),
    ).is_err() || !valid_npm_package_name(package.as_str()) || !semantic {
        return None;
    }
    let description = match &entry.values[2] {
        Some(description) => {
            let description = text_trim(description.as_str());
            if description.as_str().is_empty() {
                None
            } else {
                Some(description)
            }
        },
        None => None,
    };
    Some(
        Candidate {
            query: query.to_owned(),
            package: package.clone(),
            match_name: package.clone(),
            manager_instance_id: instance_id.to_owned(),
            manager: ManagerKind::Npm,
            source: "https://registry.npmjs.org/".to_owned(),
            version: Some(version),
            description,
            score: score_match(query, package.as_str()),
            match_kind: MatchKind::Unmatched,
            verified: true,
        },
    )
}

/// The first candidates that entries tell of.
pub fn candidates_from_entries(entries: &Vec<JsonRecord>, query: &str, instance_id: &str) -> (r: Vec<
    Candidate,
>)
    requires
        forall|i: int| 0 <= i < entries@.len() ==> (#[trigger] entries@[i]).values@.len() == 3,
    ensures
        views(r@) == take_at_most(
            entry_candidates(views(entries@), query@, instance_id@),
            MAX_RAW_CANDIDATES as nat,
        ),
{
    let ghost all = views(entries@);
    let mut r: Vec<Candidate> = Vec::new();
    let n: usize = entries.len();
    assert(views(r@) =~= take_at_most(
        entry_candidates(all.take(0), query@, instance_id@),
        MAX_RAW_CANDIDATES as nat,
    ));
    for i in 0..n
        invariant
            n == entries@.len(),
            all == views(entries@),
            forall|j: int| 0 <= j < entries@.len() ==> (#[trigger] entries@[j]).values@.len() == 3,
            views(r@) == take_at_most(
                entry_candidates(all.take(i as int), query@, instance_id@),
                MAX_RAW_CANDIDATES as nat,
            ),
    {
        proof {
            assert(all.take(i + 1).drop_last() =~= all.take(i as int));
            assert(all.take(i + 1).last() == entries@[i as int]@);
            assert(entries@[i as int]@[1] == option_view(entries@[i as int].values@[1]));
        }
        let semantic = match &entries[i].values[1] {
            Some(version) => is_semantic_version(text_trim(version.as_str()).as_str()),
            None => false,
        };
        if let Some(candidate) = candidate_from_entry(&entries[i], semantic, query, instance_id) {
            assert(r@.len() == views(r@).len());
            if r.len() < MAX_RAW_CANDIDATES {
                r.push(candidate);
            }
            assert(views(r@) =~= take_at_most(
                entry_candidates(all.take(i + 1), query@, instance_id@),
                MAX_RAW_CANDIDATES as nat,
            ));
        }
    }
    assert(all.take(n as int) =~= all);
    r
}

pub fn parse_search(text: &str, query: &str, instance_id: &str) -> (r: Result<
    Vec<Candidate>,
    Error,
>)
    ensures
        outcome_list(r) == found(text@, query@, instance_id@),
{
    let keys = list_of(&["name", "version", "description"]);
    assert(views(keys@) =~= entry_keys());
    assert(keys@.len() == views(keys@).len());
    match json_records(text, &keys) {
        Err(cause) => Err(
            Error {
                kind: ErrorKind::InvalidSearchOutput,
                message: "npm search returned invalid JSON".to_owned(),
                cause: Some(cause),
            },
        ),
        Ok(None) => Err(
            Error::new(
                ErrorKind::InvalidSearchOutput,
                "npm search returned a non-array JSON value",
            ),
        ),
        Ok(Some(entries)) => Ok(candidates_from_entries(&entries, query, instance_id)),
    }
}

pub open spec fn search_args(query: Seq<char>) -> Seq<Seq<char>> {
    seq![
        "search"@,
        "--json"@,
        "--searchlimit=40"@,
        "--registry=https://registry.npmjs.org/"@,
        "--color=false"@,
        query,
    ]
}

pub open spec fn search_environment(host: HostView) -> Seq<(Seq<char>, Seq<char>)> {
    seq![
        ("NPM_CONFIG_REGISTRY"@, "https://registry.npmjs.org/"@),
        ("NPM_CONFIG_COLOR"@, "false"@),
        ("NPM_CONFIG_AUDIT"@, "false"@),
        ("NPM_CONFIG_FUND"@, "false"@),
        ("NPM_CONFIG_USERCONFIG"@, null_file(host.platform)),
    ]
}

fn variable(name: &str, value: &str) -> (r: EnvVar)
    ensures
        r@ == (name@, value@),
{
    EnvVar { name: name.to_owned(), value: value.to_owned() }
}

fn make_search_environment(host: &Host) -> (r: Vec<EnvVar>)
    ensures
        views(r@) == search_environment(host@),
{
    let mut r: Vec<EnvVar> = Vec::new();
    r.push(variable("NPM_CONFIG_REGISTRY", "https://registry.npmjs.org/"));
    r.push(variable("NPM_CONFIG_COLOR", "false"));
    r.push(variable("NPM_CONFIG_AUDIT", "false"));
    r.push(variable("NPM_CONFIG_FUND", "false"));
    r.push(variable("NPM_CONFIG_USERCONFIG", null_device(host.platform)));
    assert(views(r@) =~= search_environment(host@));
    r
}

// ---------------------------------------------------------------------------
// Plans
// ---------------------------------------------------------------------------

/// Where packages are installed to: the directory to run in, the path that must not
/// exist by then, and the global prefix, if it is one.
#[derive(Debug)]
pub struct Destination {
    pub cwd: FilePath,
    pub guard: Option<FilePath>,
    pub prefix: Option<FilePath>,
}

pub struct DestinationView {
    pub cwd: PathView,
    pub guard: Option<PathView>,
    pub prefix: Option<PathView>,
}

impl View for Destination {
    type V = DestinationView;

    open spec fn view(&self) -> DestinationView {
        DestinationView {
            cwd: self.cwd@,
            guard: option_view(self.guard),
            prefix: option_view(self.prefix),
        }
    }
}

/// Whether one of `targets` is of this kind and at this path.
pub open spec fn knows_target(targets: Seq<TargetView>, kind: TargetKind, path: PathView) -> bool {
    exists|i: int|
        0 <= i < targets.len() && (#[trigger] targets[i]).kind == kind && (
        targets[i].path matches Some(known) && path_same(known, path))
}

fn target_is_known(targets: &Vec<Target>, kind: TargetKind, path: &FilePath) -> (r: bool)
    ensures
        r == knows_target(views(targets@), kind, path@),
{
    let n: usize = targets.len();
    for i in 0..n
        invariant
            n == targets@.len(),
            forall|j: int|
                0 <= j < i ==> !((#[trigger] views(targets@)[j]).kind == kind && (views(
                    targets@,
                )[j].path matches Some(known) && path_same(known, path@))),
    {
        assert(views(targets@)[i as int] == targets@[i as int]@);
        if targets[i].kind == kind {
            if let Some(known) = &targets[i].path {
                if known.same(path) {
                    return true;
                }
            }
        }
    }
    false
}

/// Where packages are installed to: a project or workspace that was detected, or
/// the global prefix that the instance is bound to.
pub open spec fn destination(
    host: HostView,
    instance: InstanceView,
    target: TargetView,
    context: ContextView,
) -> Result<DestinationView, ErrorView> {
    match target.kind {
        TargetKind::NodeProject | TargetKind::NodeWorkspace => match target.path {
            None => Err(
                failure(
                    ErrorKind::TargetWithoutPath,
                    "Node project target has no filesystem path"@,
                ),
            ),
            Some(path) => if !knows_target(context.targets, target.kind, path) {
                Err(
                    failure(
                        ErrorKind::UnknownTarget,
                        "Node project target "@ + target.id
                            + " is not part of the detected context"@,
                    ),
                )
            } else {
                Ok(
                    DestinationView {
                        cwd: path,
                        guard: if target.exists {
                            None
                        } else {
                            Some(path_child(path, "node_modules"@))
                        },
                        prefix: None,
                    },
                )
            },
        },
        TargetKind::NodeGlobal => match target.path {
            None => Err(
                failure(
                    ErrorKind::TargetWithoutPath,
                    "npm global target has no filesystem path"@,
                ),
            ),
            Some(path) => if instance.scope matches ScopeView::NodeGlobal(prefix) && path_same(
                prefix,
                path,
            ) {
                Ok(
                    DestinationView {
                        cwd: neutral_directory(host, context),
                        guard: if target.exists {
                            None
                        } else {
                            Some(path)
                        },
                        prefix: Some(path),
                    },
                )
            } else {
                Err(
                    failure(
                        ErrorKind::ForeignTarget,
                        "npm instance "@ + instance.id + " does not own global target "@
                            + target.id,
                    ),
                )
            },
        },
        _ => Err(
            failure(
                ErrorKind::UnsupportedTarget,
                "npm only supports Node project, workspace, or global targets"@,
            ),
        ),
    }
}

fn choose_destination(
    host: &Host,
    instance: &ManagerInstance,
    target: &Target,
    context: &ProjectContext,
) -> (r: Result<Destination, Error>)
    ensures
        outcome(r) == destination(host@, instance@, target@, context@),
{
    match target.kind {
        TargetKind::NodeProject | TargetKind::NodeWorkspace => {
            let path = match &target.path {
                Some(path) => path,
                None => {
                    return Err(
                        Error::new(
                            ErrorKind::TargetWithoutPath,
                            "Node project target has no filesystem path",
                        ),
                    );
                },
            };
            if !target_is_known(&context.targets, target.kind, path) {
                return Err(
                    Error::new(
                        ErrorKind::UnknownTarget,
                        cat3(
                            "Node project target ",
                            target.id.as_str(),
                            " is not part of the detected context",
                        ).as_str(),
                    ),
                );
            }
            Ok(
                Destination {
                    cwd: path.clone(),
                    guard: if target.exists {
                        None
                    } else {
                        Some(path.child("node_modules"))
                    },
                    prefix: None,
                },
            )
        },
        TargetKind::NodeGlobal => {
            let path = match &target.path {
                Some(path) => path,
                None => {
                    return Err(
                        Error::new(
                            ErrorKind::TargetWithoutPath,
                            "npm global target has no filesystem path",
                        ),
                    );
                },
            };
            let owned = match &instance.scope {
                InstanceScope::NodeGlobal(prefix) => prefix.same(path),
                _ => false,
            };
            if !owned {
                return Err(
                    Error::new(
                        ErrorKind::ForeignTarget,
                        cat4(
                            "npm instance ",
                            instance.id.as_str(),
                            " does not own global target ",
                            target.id.as_str(),
                        ).as_str(),
                    ),
                );
            }
            Ok(
                Destination {
                    cwd: find_neutral_directory(host, context),
                    guard: if target.exists {
                        None
                    } else {
                        Some(path.clone())
                    },
                    prefix: Some(path.clone()),
                },
            )
        },
        _ => Err(
            Error::new(
                ErrorKind::UnsupportedTarget,
                "npm only supports Node project, workspace, or global targets",
            ),
        ),
    }
}

/// The arguments that every installation has.
pub open spec fn base_args() -> Seq<Seq<char>> {
    seq![
        "install"@,
        "--ignore-scripts"@,
        "--no-audit"@,
        "--no-fund"@,
        "--registry=https://registry.npmjs.org/"@,
        "--color=false"@,
    ]
}

/// The arguments that say where to install to.
pub open spec fn place_args(prefix: Option<PathView>) -> Seq<Seq<char>> {
    match prefix {
        Some(prefix) => seq!["--global"@, "--prefix"@, path_text(prefix)],
        None => seq!["--save-exact"@],
    }
}

/// The argument that sends a scope to the registry.
pub open spec fn scope_arg(scope: Seq<char>) -> Seq<char> {
    "--"@ + scope + ":registry="@ + "https://registry.npmjs.org/"@
}

pub open spec fn scope_args(packages: Seq<Seq<char>>) -> Seq<Seq<char>> {
    scopes(packages).map_values(|scope: Seq<char>| scope_arg(scope))
}

pub open spec fn install_environment(host: HostView) -> Seq<(Seq<char>, Seq<char>)> {
    env_of(
        seq![
            ("NPM_CONFIG_REGISTRY"@, "https://registry.npmjs.org/"@),
            ("NPM_CONFIG_COLOR"@, "false"@),
            ("NPM_CONFIG_AUDIT"@, "false"@),
            ("NPM_CONFIG_FUND"@, "false"@),
            ("NPM_CONFIG_IGNORE_SCRIPTS"@, "true"@),
            ("NPM_CONFIG_USERCONFIG"@, null_file(host.platform)),
        ],
    )
}

/// The step that installs packages.
pub open spec fn install_step(
    host: HostView,
    instance: InstanceView,
    packages: Seq<Seq<char>>,
    destination: DestinationView,
) -> CommandView {
    CommandView {
        label: batch_label("npm install "@, packages.len()),
        program: instance.executable,
        args: instance.launcher_args + (base_args() + place_args(destination.prefix) + scope_args(
            packages,
        ) + packages),
        cwd: Some(destination.cwd),
        env: install_environment(host),
        env_remove_prefixes: node_removals(),
        must_not_exist: destination.guard,
        requires_admin: false,
    }
}

fn push_scope_args(args: &mut Vec<String>, packages: &Vec<String>)
    ensures
        views(final(args)@) == views(old(args)@) + scope_args(views(packages@)),
{
    let list = package_scopes(packages);
    let ghost start = views(args@);
    let ghost all = scope_args(views(packages@));
    let n: usize = list.len();
    assert(views(args@) =~= start + all.take(0));
    for i in 0..n
        invariant
            n == list@.len(),
            views(list@) == scopes(views(packages@)),
            all == scope_args(views(packages@)),
            views(args@) == start + all.take(i as int),
    {
        let arg = cat4("--", list[i].as_str(), ":registry=", "https://registry.npmjs.org/");
        args.push(arg);
        proof {
            assert(views(list@)[i as int] == list@[i as int]@);
            assert(all[i as int] == arg@);
            assert(views(args@) =~= start + all.take(i + 1));
        }
    }
    assert(all.take(n as int) =~= all);
}

fn make_install_environment(host: &Host) -> (r: EnvMap)
    ensures
        r@ == install_environment(host@),
{
    let null = null_device(host.platform);
    let ghost all = seq![
        ("NPM_CONFIG_REGISTRY"@, "https://registry.npmjs.org/"@),
        ("NPM_CONFIG_COLOR"@, "false"@),
        ("NPM_CONFIG_AUDIT"@, "false"@),
        ("NPM_CONFIG_FUND"@, "false"@),
        ("NPM_CONFIG_IGNORE_SCRIPTS"@, "true"@),
        ("NPM_CONFIG_USERCONFIG"@, null@),
    ];
    proof {
        reveal_with_fuel(env_of, 7);
        assert(all.drop_last() =~= all.take(5));
        assert(all.take(5).drop_last() =~= all.take(4));
        assert(all.take(4).drop_last() =~= all.take(3));
        assert(all.take(3).drop_last() =~= all.take(2));
        assert(all.take(2).drop_last() =~= all.take(1));
        assert(all.take(1).drop_last() =~= all.take(0));
    }
    EnvMap::new().with("NPM_CONFIG_REGISTRY", "https://registry.npmjs.org/").with(
        "NPM_CONFIG_COLOR",
        "false",
    ).with("NPM_CONFIG_AUDIT", "false").with("NPM_CONFIG_FUND", "false").with(
        "NPM_CONFIG_IGNORE_SCRIPTS",
        "true",
    ).with("NPM_CONFIG_USERCONFIG", null)
}

fn make_install_step(
    host: &Host,
    instance: &ManagerInstance,
    packages: &Vec<String>,
    destination: Destination,
) -> (r: CommandSpec)
    ensures
        r@ == install_step(host@, instance@, views(packages@), destination@),
{
    let mut args = list_of(
        &[
            "install",
            "--ignore-scripts",
            "--no-audit",
            "--no-fund",
            "--registry=https://registry.npmjs.org/",
            "--color=false",
        ],
    );
    assert(views(args@) =~= base_args());
    match &destination.prefix {
        Some(prefix) => {
            args.push("--global".to_owned());
            args.push("--prefix".to_owned());
            args.push(prefix.text());
        },
        None => {
            args.push("--save-exact".to_owned());
        },
    }
    assert(views(args@) =~= base_args() + place_args(destination@.prefix));
    push_scope_args(&mut args, packages);
    extend_texts(&mut args, packages);
    CommandSpec {
        label: label_batch("npm install ", packages.len()),
        program: instance.executable.clone(),
        args: instance.prepend_launcher(args),
        cwd: Some(destination.cwd),
        env: make_install_environment(host),
        env_remove_prefixes: owned_env_removals(),
        must_not_exist: destination.guard,
        requires_admin: false,
    }
}

impl ManagerAdapter for NpmAdapter {
    open spec fn manager(&self) -> ManagerKind {
        ManagerKind::Npm
    }

    fn kind(&self) -> (r: ManagerKind) {
        ManagerKind::Npm
    }

    open spec fn searchable(&self) -> bool {
        true
    }

    fn supports_search(&self) -> (r: bool) {
        true
    }

    open spec fn installable(&self) -> bool {
        true
    }

    fn supports_install(&self) -> (r: bool) {
        true
    }

    open spec fn fuzzy(&self) -> bool {
        false
    }

    fn supports_fuzzy_fallback(&self) -> (r: bool) {
        false
    }

    open spec fn probes(&self, host: HostView, context: ContextView) -> Seq<RequestView> {
        npm_probes(host, node_launchers(host, "npm"@, "npm-cli.js"@, context))
    }

    fn discovery_requests(&self, host: &Host, context: &ProjectContext) -> (r: Vec<CaptureRequest>) {
        let launchers = discover_launchers(host, "npm", "npm-cli.js", context);
        let ghost all = views(launchers@);
        let mut r: Vec<CaptureRequest> = Vec::new();
        let n: usize = launchers.len();
        assert(views(r@) =~= npm_probes(host@, all.take(0)));
        for i in 0..n
            invariant
                n == launchers@.len(),
                all == views(launchers@),
                views(r@) == npm_probes(host@, all.take(i as int)),
        {
            proof {
                assert(all.take(i + 1).drop_last() =~= all.take(i as int));
                assert(all.take(i + 1).last() == launchers@[i as int]@);
            }
            r.push(make_version_request(&launchers[i]));
            r.push(make_prefix_request(host, &launchers[i]));
        }
        assert(all.take(n as int) =~= all);
        r
    }

    open spec fn instances(
        &self,
        host: HostView,
        context: ContextView,
        replies: Seq<Option<OutputView>>,
    ) -> Seq<InstanceView> {
        npm_instances(
            host,
            context,
            node_launchers(host, "npm"@, "npm-cli.js"@, context),
            replies,
        )
    }

    fn discover(
        &self,
        host: &Host,
        context: &ProjectContext,
        replies: &Vec<Option<CapturedOutput>>,
    ) -> (r: Vec<ManagerInstance>) {
        let launchers = discover_launchers(host, "npm", "npm-cli.js", context);
        let ghost all = npm_instances(
            host@,
            context@,
            views(launchers@),
            replies_view(replies@),
        );
        let mut r: Vec<ManagerInstance> = Vec::new();
        let n: usize = launchers.len();
        proof {
            lemma_npm_probes(host@, views(launchers@));
        }
        assert(replies@.len() == 2 * n);
        assert(views(r@) =~= all.take(0));
        let total: usize = replies.len();
        for i in 0..n
            invariant
                n == launchers@.len(),
                total == replies@.len(),
                total == 2 * n,
                all == npm_instances(
                    host@,
                    context@,
                    views(launchers@),
                    replies_view(replies@),
                ),
                views(r@) == all.take(i as int),
        {
            let version = version_text(&replies[2 * i]);
            let scope = discover_global_prefix(host, context, &replies[2 * i + 1]);
            let instance = make_launcher_instance(ManagerKind::Npm, &launchers[i], version, scope);
            r.push(instance);
            proof {
                let given = replies_view(replies@);
                assert(given[2 * i] == option_view(replies@[2 * i]));
                assert(given[2 * i + 1] == option_view(replies@[2 * i + 1]));
                assert(all[i as int] == instance@);
                assert(views(r@) =~= all.take(i + 1));
            }
        }
        assert(all.take(n as int) =~= all);
        r
    }

    open spec fn asks(&self, host: HostView, instance: InstanceView, query: Seq<char>) -> Result<
        SearchRequestView,
        ErrorView,
    > {
        match query_verdict(query) {
            Err(e) => Err(e),
            Ok(_) => Ok(
                SearchRequestView::Run(
                    search_request(
                        instance.executable,
                        instance.launcher_args + search_args(query),
                        node_removals(),
                        search_environment(host),
                    ),
                ),
            ),
        }
    }

    fn search_request(&self, host: &Host, instance: &ManagerInstance, query: &str) -> (r: Result<
        SearchRequest,
        Error,
    >) {
        match validate_query(query) {
            Err(e) => {
                return Err(e);
            },
            Ok(_) => {},
        }
        let args = list_of(
            &[
                "search",
                "--json",
                "--searchlimit=40",
                "--registry=https://registry.npmjs.org/",
                "--color=false",
                query,
            ],
        );
        assert(views(args@) =~= search_args(query@));
        Ok(
            SearchRequest::Run(
                search_command_sanitized(
                    &instance.executable,
                    instance.prepend_launcher(args),
                    owned_env_removals(),
                    make_search_environment(host),
                ),
            ),
        )
    }

    open spec fn finds(&self, instance: InstanceView, query: Seq<char>, reply: SearchReplyView) -> Result<
        Seq<CandidateView>,
        ErrorView,
    > {
        match reply {
            SearchReplyView::Output(output) => if output.success {
                found(output.stdout, query, instance.id)
            } else {
                Err(
                    failure(
                        ErrorKind::SearchFailed,
                        "npm search failed: "@ + diagnostic(trim(output.stderr)),
                    ),
                )
            },
            _ => Ok(Seq::empty()),
        }
    }

    fn search(&self, instance: &ManagerInstance, query: &str, reply: &SearchReply) -> (r: Result<
        Vec<Candidate>,
        Error,
    >) {
        match reply {
            SearchReply::Output(output) => if output.success {
                parse_search(output.stdout.as_str(), query, instance.id.as_str())
            } else {
                let text = safe_diagnostic(text_trim(output.stderr.as_str()).as_str());
                Err(
                    Error::new(
                        ErrorKind::SearchFailed,
                        cat2("npm search failed: ", text.as_str()).as_str(),
                    ),
                )
            },
            _ => Ok(Vec::new()),
        }
    }

    open spec fn targets(&self, host: HostView, instance: InstanceView, context: ContextView) -> Seq<
        TargetView,
    > {
        let local = of_kinds(context.targets, TargetKind::NodeProject, TargetKind::NodeWorkspace);
        match instance.scope {
            ScopeView::NodeGlobal(prefix) => local.push(global_target(host, prefix)),
            _ => local,
        }
    }

    fn compatible_targets(
        &self,
        host: &Host,
        instance: &ManagerInstance,
        context: &ProjectContext,
    ) -> (r: Vec<Target>) {
        let mut r = targets_of_kinds(
            &context.targets,
            TargetKind::NodeProject,
            TargetKind::NodeWorkspace,
        );
        if let InstanceScope::NodeGlobal(prefix) = &instance.scope {
            r.push(node_global_target(host, prefix));
        }
        r
    }

    open spec fn plans(
        &self,
        host: HostView,
        instance: InstanceView,
        packages: Seq<Seq<char>>,
        target: TargetView,
        context: ContextView,
    ) -> Result<Seq<CommandView>, ErrorView> {
        if packages.len() == 0 {
            Err(failure(ErrorKind::NoPackages, "npm install requires at least one package"@))
        } else {
            match specs_verdict(packages) {
                Err(e) => Err(e),
                Ok(_) => match destination(host, instance, target, context) {
                    Err(e) => Err(e),
                    Ok(place) => if place.prefix is Some && !path_exact(place.prefix->0) {
                        Err(
                            failure(
                                ErrorKind::PathNotUnicode,
                                "npm global prefix is not valid UTF-8"@,
                            ),
                        )
                    } else {
                        Ok(seq![install_step(host, instance, packages, place)])
                    },
                },
            }
        }
    }

    fn plan(
        &self,
        host: &Host,
        instance: &ManagerInstance,
        packages: &Vec<String>,
        target: &Target,
        context: &ProjectContext,
    ) -> (r: Result<Vec<CommandSpec>, Error>) {
        if packages.len() == 0 {
            return Err(
                Error::new(ErrorKind::NoPackages, "npm install requires at least one package"),
            );
        }
        match validate_specs(packages) {
            Err(e) => {
                return Err(e);
            },
            Ok(_) => {},
        }
        let place = match choose_destination(host, instance, target, context) {
            Err(e) => {
                return Err(e);
            },
            Ok(place) => place,
        };
        if let Some(prefix) = &place.prefix {
            if !prefix.is_exact() {
                return Err(
                    Error::new(ErrorKind::PathNotUnicode, "npm global prefix is not valid UTF-8"),
                );
            }
        }
        let step = make_install_step(host, instance, packages, place);
        let mut steps: Vec<CommandSpec> = Vec::new();
        steps.push(step);
        assert(views(steps@) =~= seq![step@]);
        Ok(steps)
    }
}

/// Whatever npm plans, it is one step that runs no lifecycle scripts, needs no
/// elevation and ends with the packages, each of them pinned to a version.
pub proof fn law_install_is_pinned_and_scriptless(
    host: HostView,
    instance: InstanceView,
    packages: Seq<Seq<char>>,
    target: TargetView,
    context: ContextView,
)
    ensures
        NpmAdapter.plans(host, instance, packages, target, context) matches Ok(steps) ==> {
            &&& steps.len() == 1
            &&& steps[0].args.contains("--ignore-scripts"@)
            &&& !steps[0].requires_admin
            &&& steps[0].args.len() >= packages.len()
            &&& steps[0].args.skip(steps[0].args.len() - packages.len()) == packages
            &&& forall|i: int| 0 <= i < packages.len() ==> spec_verdict(#[trigger] packages[i]) is Ok
            &&& steps[0].must_not_exist is Some <==> !target.exists
        },
{
    match NpmAdapter.plans(host, instance, packages, target, context) {
        Ok(steps) => {
            let place = destination(host, instance, target, context)->Ok_0;
            let rest = base_args() + place_args(place.prefix) + scope_args(packages) + packages;
            let args = instance.launcher_args + rest;
            assert(steps[0].args == args);
            assert(rest[1] == "--ignore-scripts"@);
            assert(args[instance.launcher_args.len() + 1int] == "--ignore-scripts"@);
            assert(args.skip(args.len() - packages.len()) =~= packages);
            lemma_specs_verdict(packages);
        },
        Err(_) => {},
    }
}

proof fn lemma_specs_verdict(packages: Seq<Seq<char>>)
    requires
        specs_verdict(packages) is Ok,
    ensures
        forall|i: int| 0 <= i < packages.len() ==> spec_verdict(#[trigger] packages[i]) is Ok,
    decreases packages.len(),
{
    if packages.len() > 0 {
        lemma_specs_verdict(packages.drop_last());
        assert forall|i: int| 0 <= i < packages.len() implies spec_verdict(
            #[trigger] packages[i],
        ) is Ok by {
            if i < packages.len() - 1 {
                assert(packages.drop_last()[i] == packages[i]);
            }
        }
    }
}

/// Where npm installs to. Into a project or workspace that was detected: there, saving
/// exact versions, and with a guard on `node_modules` if the project does not exist. Into
/// a global prefix only if the instance is bound to it: away from the project, with a
/// guard on the prefix if that does not exist. Any other target is refused.
pub proof fn law_npm_destination(
    host: HostView,
    instance: InstanceView,
    target: TargetView,
    context: ContextView,
)
    ensures
        ({
            let place = destination(host, instance, target, context);
            let local = target.kind == TargetKind::NodeProject || target.kind
                == TargetKind::NodeWorkspace;
            let global = target.kind == TargetKind::NodeGlobal;
            let known = exists|i: int|
                0 <= i < context.targets.len() && (#[trigger] context.targets[i]).kind
                    == target.kind && (context.targets[i].path matches Some(path) && (
                target.path matches Some(given) && path_same(path, given)));
            let owned = (instance.scope matches ScopeView::NodeGlobal(prefix) && (
            target.path matches Some(given) && path_same(prefix, given)));
            &&& !local && !global ==> (place matches Err(e) && e.kind
                == ErrorKind::UnsupportedTarget)
            &&& (local || global) && target.path is None ==> (place matches Err(e) && e.kind
                == ErrorKind::TargetWithoutPath)
            &&& local && target.path is Some && !known ==> (place matches Err(e) && e.kind
                == ErrorKind::UnknownTarget)
            &&& global && target.path is Some && !owned ==> (place matches Err(e) && e.kind
                == ErrorKind::ForeignTarget)
            &&& local && target.path is Some && known ==> (place matches Ok(found) && {
                &&& found.cwd == target.path->0
                &&& found.prefix is None
                &&& found.guard == if target.exists {
                    None
                } else {
                    Some(path_child(target.path->0, "node_modules"@))
                }
            })
            &&& global && target.path is Some && owned ==> (place matches Ok(found) && {
                &&& found.cwd == match crate::platform::home(host) {
                    Some(home) => home,
                    None => context.cwd,
                }
                &&& found.prefix == target.path
                &&& found.guard == if target.exists {
                    None
                } else {
                    target.path
                }
            })
        }),
{
    if target.path is Some {
        let known = exists|i: int|
            0 <= i < context.targets.len() && (#[trigger] context.targets[i]).kind == target.kind && (
            context.targets[i].path matches Some(path) && (target.path matches Some(given)
                && path_same(path, given)));
        assert(known == knows_target(context.targets, target.kind, target.path->0)) by {
            if knows_target(context.targets, target.kind, target.path->0) {
                let i = choose|i: int|
                    0 <= i < context.targets.len() && (#[trigger] context.targets[i]).kind
                        == target.kind && (context.targets[i].path matches Some(known)
                        && path_same(known, target.path->0));
                assert(context.targets[i].kind == target.kind);
            }
        }
    }
}

/// What npm is told to install with: one step without elevation, in which npm gets
/// `install`, no scripts, no audit, no funding, its own registry, where to install to, for
/// each scope the registry once more, and at the end the packages. All packages have to
/// be pinned, and there has to be one.
pub proof fn law_npm_installs(
    host: HostView,
    instance: InstanceView,
    packages: Seq<Seq<char>>,
    target: TargetView,
    context: ContextView,
)
    ensures
        ({
            let plan = NpmAdapter.plans(host, instance, packages, target, context);
            let place = destination(host, instance, target, context);
            let pinned = forall|i: int|
                0 <= i < packages.len() ==> spec_verdict(#[trigger] packages[i]) is Ok;
            &&& packages.len() == 0 ==> (plan matches Err(e) && e.kind == ErrorKind::NoPackages)
            &&& packages.len() > 0 && pinned && place is Err ==> (plan matches Err(e)
                && place matches Err(cause) && e == cause)
            &&& packages.len() > 0 && pinned && (place matches Ok(found) && (
            found.prefix matches Some(prefix) && !path_exact(prefix))) ==> (plan matches Err(e)
                && e.kind == ErrorKind::PathNotUnicode)
            &&& packages.len() > 0 && pinned && (place matches Ok(found) && (
            found.prefix matches Some(prefix) ==> path_exact(prefix))) ==> plan is Ok
            &&& !pinned ==> plan is Err
            &&& plan matches Ok(steps) ==> place is Ok && steps.len() == 1 && {
                let found = place->Ok_0;
                &&& steps[0].program == instance.executable
                &&& steps[0].args == instance.launcher_args + (seq![
                    "install"@,
                    "--ignore-scripts"@,
                    "--no-audit"@,
                    "--no-fund"@,
                    "--registry=https://registry.npmjs.org/"@,
                    "--color=false"@,
                ] + (match found.prefix {
                    Some(prefix) => seq!["--global"@, "--prefix"@, path_text(prefix)],
                    None => seq!["--save-exact"@],
                }) + scope_args(packages) + packages)
                &&& steps[0].cwd == Some(found.cwd)
                &&& steps[0].must_not_exist == found.guard
                &&& !steps[0].requires_admin
                &&& steps[0].env_remove_prefixes == seq![
                    "NODE_OPTIONS"@,
                    "NODE_PATH"@,
                    "NPM_"@,
                    "npm_"@,
                    "INIT_CWD"@,
                ]
                &&& env_value(steps[0].env, "NPM_CONFIG_REGISTRY"@) == Some(
                    "https://registry.npmjs.org/"@,
                )
                &&& env_value(steps[0].env, "NPM_CONFIG_IGNORE_SCRIPTS"@) == Some("true"@)
                &&& env_value(steps[0].env, "NPM_CONFIG_AUDIT"@) == Some("false"@)
                &&& env_value(steps[0].env, "NPM_CONFIG_FUND"@) == Some("false"@)
                &&& env_value(steps[0].env, "NPM_CONFIG_COLOR"@) == Some("false"@)
                &&& env_value(steps[0].env, "NPM_CONFIG_USERCONFIG"@) == Some(
                    null_file(host.platform),
                )
                &&& steps[0].label == "npm install "@ + crate::text::decimal(packages.len())
                    + " package(s)"@
            }
        }),
{
    let pinned = forall|i: int|
        0 <= i < packages.len() ==> spec_verdict(#[trigger] packages[i]) is Ok;
    if specs_verdict(packages) is Ok {
        lemma_specs_verdict(packages);
    }
    if pinned {
        lemma_all_pinned(packages);
    }
    lemma_environment_values(host);
}

proof fn lemma_all_pinned(packages: Seq<Seq<char>>)
    requires
        forall|i: int| 0 <= i < packages.len() ==> spec_verdict(#[trigger] packages[i]) is Ok,
    ensures
        specs_verdict(packages) is Ok,
    decreases packages.len(),
{
    if packages.len() > 0 {
        let rest = packages.drop_last();
        assert forall|i: int| 0 <= i < rest.len() implies spec_verdict(#[trigger] rest[i]) is Ok by {
            assert(rest[i] == packages[i]);
        }
        lemma_all_pinned(rest);
        assert(spec_verdict(packages[packages.len() - 1]) is Ok);
    }
}

proof fn lemma_environment_values(host: HostView)
    ensures
        ({
            let env = install_environment(host);
            &&& env_value(env, "NPM_CONFIG_REGISTRY"@) == Some("https://registry.npmjs.org/"@)
            &&& env_value(env, "NPM_CONFIG_COLOR"@) == Some("false"@)
            &&& env_value(env, "NPM_CONFIG_AUDIT"@) == Some("false"@)
            &&& env_value(env, "NPM_CONFIG_FUND"@) == Some("false"@)
            &&& env_value(env, "NPM_CONFIG_IGNORE_SCRIPTS"@) == Some("true"@)
            &&& env_value(env, "NPM_CONFIG_USERCONFIG"@) == Some(null_file(host.platform))
        }),
{
    reveal_strlit("NPM_CONFIG_REGISTRY");
    reveal_strlit("NPM_CONFIG_COLOR");
    reveal_strlit("NPM_CONFIG_AUDIT");
    reveal_strlit("NPM_CONFIG_FUND");
    reveal_strlit("NPM_CONFIG_IGNORE_SCRIPTS");
    reveal_strlit("NPM_CONFIG_USERCONFIG");
    let pairs = seq![
        ("NPM_CONFIG_REGISTRY"@, "https://registry.npmjs.org/"@),
        ("NPM_CONFIG_COLOR"@, "false"@),
        ("NPM_CONFIG_AUDIT"@, "false"@),
        ("NPM_CONFIG_FUND"@, "false"@),
        ("NPM_CONFIG_IGNORE_SCRIPTS"@, "true"@),
        ("NPM_CONFIG_USERCONFIG"@, null_file(host.platform)),
    ];
    assert(pairs[0].0.len() == 19 && pairs[1].0.len() == 16 && pairs[2].0.len() == 16
        && pairs[3].0.len() == 15 && pairs[4].0.len() == 25 && pairs[5].0.len() == 21);
    assert(pairs[1].0[11] != pairs[2].0[11]);
    law_last_value_is_set(pairs, 0, Seq::empty());
    law_last_value_is_set(pairs, 1, Seq::empty());
    law_last_value_is_set(pairs, 2, Seq::empty());
    law_last_value_is_set(pairs, 3, Seq::empty());
    law_last_value_is_set(pairs, 4, Seq::empty());
    law_last_value_is_set(pairs, 5, Seq::empty());
}

/// Every scope of a pinned package is sent to the registry of npm, and nothing else is
/// said of scopes: an argument is there if and only if some package is in its scope.
pub proof fn law_scopes_go_to_the_registry(packages: Seq<Seq<char>>, arg: Seq<char>)
    ensures
        scope_args(packages).contains(arg) <==> exists|i: int|
            0 <= i < packages.len() && (scope_of(#[trigger] packages[i]) matches Some(scope) && arg
                == "--"@ + scope + ":registry=https://registry.npmjs.org/"@),
{
    reveal_strlit(":registry=");
    reveal_strlit("https://registry.npmjs.org/");
    reveal_strlit(":registry=https://registry.npmjs.org/");
    assert(":registry="@ + "https://registry.npmjs.org/"@
        =~= ":registry=https://registry.npmjs.org/"@);
    lemma_scopes(packages);
    let list = scopes(packages);
    let args = scope_args(packages);
    assert forall|scope: Seq<char>| #[trigger] scope_arg(scope) == "--"@ + scope
        + ":registry=https://registry.npmjs.org/"@ by {
        assert(scope_arg(scope) =~= "--"@ + scope + ":registry=https://registry.npmjs.org/"@);
    }
    if args.contains(arg) {
        let k = choose|k: int| 0 <= k < args.len() && args[k] == arg;
        assert(args[k] == scope_arg(list[k]));
        assert(list.contains(list[k]));
        let i = choose|i: int| 0 <= i < packages.len() && scope_of(#[trigger] packages[i]) == Some(
            list[k],
        );
        assert(scope_of(packages[i]) == Some(list[k]));
    }
    if exists|i: int|
        0 <= i < packages.len() && (scope_of(#[trigger] packages[i]) matches Some(scope) && arg
            == "--"@ + scope + ":registry=https://registry.npmjs.org/"@) {
        let i = choose|i: int|
            0 <= i < packages.len() && (scope_of(#[trigger] packages[i]) matches Some(scope) && arg
                == "--"@ + scope + ":registry=https://registry.npmjs.org/"@);
        let scope = scope_of(packages[i])->0;
        assert(list.contains(scope));
        let k = choose|k: int| 0 <= k < list.len() && list[k] == scope;
        assert(args[k] == scope_arg(scope));
    }
}

proof fn lemma_scopes(packages: Seq<Seq<char>>)
    ensures
        crate::order::increasing(scopes(packages)),
        forall|scope: Seq<char>| #[trigger]
            scopes(packages).contains(scope) <==> exists|i: int|
                0 <= i < packages.len() && scope_of(#[trigger] packages[i]) == Some(scope),
    decreases packages.len(),
{
    if packages.len() > 0 {
        let rest = packages.drop_last();
        let last = packages[packages.len() - 1];
        lemma_scopes(rest);
        if let Some(scope) = scope_of(last) {
            crate::order::lemma_sorted_insert(scopes(rest), scope);
        }
        assert forall|scope: Seq<char>| #[trigger]
            scopes(packages).contains(scope) <==> exists|i: int|
                0 <= i < packages.len() && scope_of(#[trigger] packages[i]) == Some(scope) by {
            if scopes(rest).contains(scope) {
                let i = choose|i: int|
                    0 <= i < rest.len() && scope_of(#[trigger] rest[i]) == Some(scope);
                assert(scope_of(packages[i]) == Some(scope));
            }
            if scope_of(last) == Some(scope) {
                assert(scope_of(packages[packages.len() - 1]) == Some(scope));
            }
            if exists|i: int|
                0 <= i < packages.len() && scope_of(#[trigger] packages[i]) == Some(scope) {
                let i = choose|i: int|
                    0 <= i < packages.len() && scope_of(#[trigger] packages[i]) == Some(scope);
                if i < rest.len() {
                    assert(scope_of(rest[i]) == Some(scope));
                }
            }
        }
    }
}

/// The scope of a specification is what stands between its first `@` and the slash, with
/// the `@`; a specification that does not begin with `@` has none.
pub proof fn law_scope_of_a_package(scope: Seq<char>, name: Seq<char>, version: Seq<char>)
    requires
        scope.len() > 0,
        forall|j: int| 0 <= j < scope.len() ==> scope[j] != '/',
        forall|j: int| 0 <= j < version.len() ==> version[j] != '@',
        name.len() > 0 ==> name[0] != '@',
    ensures
        scope_of((seq!['@'] + scope + seq!['/'] + name).push('@') + version) == Some(
            seq!['@'] + scope,
        ),
        scope_of(name.push('@') + version) is None,
{
    reveal_strlit("@");
    reveal_strlit("/");
    let package = seq!['@'] + scope + seq!['/'] + name;
    law_split_at_the_last(package, '@', version);
    law_split_at_the_last(name, '@', version);
    assert(package[0] == '@');
    assert(package.skip(1) =~= scope + "/"@ + name);
    let rest = scope + "/"@ + name;
    assert forall|j: int| 0 <= j < scope.len() implies !#[trigger] occurs_at(rest, "/"@, j) by {
        if occurs_at(rest, "/"@, j) {
            assert(rest.subrange(j, j + 1)[0] == rest[j]);
            assert(rest[j] == scope[j]);
        }
    }
    law_split_at_the_first(scope, "/"@, name);
    assert("@"@ + scope =~= seq!['@'] + scope);
}

/// A package is pinned if it reads as a name that a package can have, `@` and a semantic
/// version; what reads otherwise is refused.
pub proof fn law_package_is_pinned(package: Seq<char>, version: Seq<char>)
    requires
        forall|j: int| 0 <= j < version.len() ==> version[j] != '@',
        package_verdict(package.push('@') + version) is Ok,
    ensures
        spec_verdict(package.push('@') + version) is Ok <==> is_npm_name(package)
            && semantic_version(version),
        spec_verdict(package.push('@') + version) matches Err(e) ==> e.kind == ErrorKind::NotPinned,
        package_verdict(version) is Ok ==> (spec_verdict(version) matches Err(e) && e.kind
            == ErrorKind::NotPinned),
        package_verdict(version) matches Err(e) ==> spec_verdict(version) == Err::<(), ErrorView>(e),
{
    law_split_at_the_last(package, '@', version);
}

/// The name of a package has at most 214 characters; it is one component, or a scope
/// behind `@`, a slash and one component. A component is made of letters and digits of
/// ASCII, hyphens, dots, underscores and tildes and begins with neither a dot nor an
/// underscore.
pub proof fn law_npm_names(scope: Seq<char>, name: Seq<char>)
    ensures
        is_name_component(name) <==> name.len() > 0 && name[0] != '.' && name[0] != '_' && forall|
            i: int,
        |
            0 <= i < name.len() ==> ('a' <= #[trigger] name[i] <= 'z' || 'A' <= name[i] <= 'Z' || '0'
                <= name[i] <= '9' || name[i] == '-' || name[i] == '.' || name[i] == '_' || name[i]
                == '~'),
        name.len() == 0 || name[0] != '@' ==> (is_npm_name(name) <==> name.len() <= 214
            && is_name_component(name)),
        (forall|j: int| 0 <= j < scope.len() ==> scope[j] != '/') ==> (is_npm_name(
            seq!['@'] + scope + seq!['/'] + name,
        ) <==> scope.len() + name.len() + 2 <= 214 && is_name_component(scope)
            && is_name_component(name)),
{
    if is_name_component(name) {
        assert forall|i: int| 0 <= i < name.len() implies ('a' <= #[trigger] name[i] <= 'z' || 'A'
            <= name[i] <= 'Z' || '0' <= name[i] <= '9' || name[i] == '-' || name[i] == '.' || name[i]
            == '_' || name[i] == '~') by {
            assert(is_component_char(name[i]));
        }
    }
    if forall|j: int| 0 <= j < scope.len() ==> scope[j] != '/' {
        reveal_strlit("/");
        let package = seq!['@'] + scope + seq!['/'] + name;
        assert(package[0] == '@');
        let rest = scope + "/"@ + name;
        assert(package.skip(1) =~= rest);
        assert forall|j: int| 0 <= j < scope.len() implies !#[trigger] occurs_at(rest, "/"@, j) by {
            if occurs_at(rest, "/"@, j) {
                assert(rest.subrange(j, j + 1)[0] == rest[j]);
                assert(rest[j] == scope[j]);
            }
        }
        law_split_at_the_first(scope, "/"@, name);
    }
}

/// What npm is asked with: it gets `search`, `--json`, a limit, its own registry, no
/// colours and the query, behind what starts it, and no settings of the user.
pub proof fn law_npm_searches(host: HostView, instance: InstanceView, query: Seq<char>)
    ensures
        query_verdict(query) matches Err(e) ==> NpmAdapter.asks(host, instance, query) == Err::<
            SearchRequestView,
            ErrorView,
        >(e),
        query_verdict(query) is Ok ==> (NpmAdapter.asks(
            host,
            instance,
            query,
        ) matches Ok(SearchRequestView::Run(request)) && {
            &&& request.program == instance.executable
            &&& request.args == instance.launcher_args + seq![
                "search"@,
                "--json"@,
                "--searchlimit=40"@,
                "--registry=https://registry.npmjs.org/"@,
                "--color=false"@,
                query,
            ]
            &&& request.env_remove_prefixes == seq![
                "NODE_OPTIONS"@,
                "NODE_PATH"@,
                "NPM_"@,
                "npm_"@,
                "INIT_CWD"@,
            ]
            &&& request.env == seq![
                ("NPM_CONFIG_REGISTRY"@, "https://registry.npmjs.org/"@),
                ("NPM_CONFIG_COLOR"@, "false"@),
                ("NPM_CONFIG_AUDIT"@, "false"@),
                ("NPM_CONFIG_FUND"@, "false"@),
                ("NPM_CONFIG_USERCONFIG"@, null_file(host.platform)),
            ]
            &&& request.cwd is None
            &&& request.seconds == 20
            &&& request.limit == 4_194_304
        }),
{
}

/// What npm printed is read entry by entry: an entry with a name that a package can have
/// and a semantic version is a candidate, and any other entry says nothing.
pub proof fn law_npm_output_is_read(
    entries: Seq<Seq<Option<Seq<char>>>>,
    entry: Seq<Option<Seq<char>>>,
    query: Seq<char>,
    instance: Seq<char>,
)
    ensures
        entry_candidates(Seq::empty(), query, instance) == Seq::<CandidateView>::empty(),
        ({
            let before = entry_candidates(entries, query, instance);
            let after = entry_candidates(entries.push(entry), query, instance);
            let usable = entry[0] is Some && entry[1] is Some && package_verdict(
                trim(entry[0]->0),
            ) is Ok && is_npm_name(trim(entry[0]->0)) && trim(entry[1]->0).len() > 0
                && semantic_version(trim(entry[1]->0));
            &&& !usable ==> after == before
            &&& usable ==> {
                let c = after.last();
                &&& after == before.push(c)
                &&& c.query == query
                &&& c.package == trim(entry[0]->0)
                &&& c.match_name == trim(entry[0]->0)
                &&& c.version == Some(trim(entry[1]->0))
                &&& c.description == if entry[2] is Some && trim(entry[2]->0).len() > 0 {
                    Some(trim(entry[2]->0))
                } else {
                    None
                }
                &&& c.manager == ManagerKind::Npm
                &&& c.manager_instance_id == instance
                &&& c.verified
                &&& c.source == "https://registry.npmjs.org/"@
                &&& c.score == name_score(query, trim(entry[0]->0))
            }
        }),
{
    assert(entries.push(entry).drop_last() =~= entries);
}

/// What was found is what the entries tell of, at most the first forty; output that is
/// no array in JSON, and a search that did not succeed, are errors.
pub proof fn law_npm_finds(instance: InstanceView, query: Seq<char>, output: OutputView)
    ensures
        ({
            let found = NpmAdapter.finds(instance, query, SearchReplyView::Output(output));
            let records = records_of(output.stdout, seq!["name"@, "version"@, "description"@]);
            &&& !output.success ==> (found matches Err(e) && e.kind == ErrorKind::SearchFailed
                && e.message == "npm search failed: "@ + diagnostic(trim(output.stderr)))
            &&& output.success && !(records matches Ok(Some(_))) ==> (found matches Err(e) && e.kind
                == ErrorKind::InvalidSearchOutput)
            &&& output.success && (records matches Ok(Some(_))) ==> (found matches Ok(list) && {
                let told = entry_candidates(records->Ok_0->0, query, instance.id);
                list == if told.len() > 40 {
                    told.take(40)
                } else {
                    told
                }
            })
        }),
{
}

/// Each way to start npm is asked for its version and for its global prefix, and is one
/// instance, under the version that it printed and bound to the prefix that it printed.
pub proof fn law_npm_is_discovered(
    host: HostView,
    context: ContextView,
    replies: Seq<Option<OutputView>>,
    i: int,
)
    ensures
        ({
            let launchers = node_launchers(host, "npm"@, "npm-cli.js"@, context);
            let probes = NpmAdapter.probes(host, context);
            let instances = NpmAdapter.instances(host, context, replies);
            &&& probes.len() == 2 * launchers.len()
            &&& instances.len() == launchers.len()
            &&& 0 <= i < launchers.len() ==> {
                &&& probes[2 * i] == launcher_version_request(launchers[i])
                &&& probes[2 * i + 1].program == launchers[i].program
                &&& probes[2 * i + 1].args == launchers[i].launcher_args + seq![
                    "prefix"@,
                    "--global"@,
                    "--color=false"@,
                ]
                &&& probes[2 * i + 1].env == seq![
                    ("NPM_CONFIG_COLOR"@, "false"@),
                    ("NPM_CONFIG_USERCONFIG"@, null_file(host.platform)),
                ]
                &&& instances[i] == launcher_instance(
                    ManagerKind::Npm,
                    launchers[i],
                    version_line(replies[2 * i]),
                    prefix_scope(host, context, replies[2 * i + 1]),
                )
            }
        }),
{
    lemma_both_probes(host, node_launchers(host, "npm"@, "npm-cli.js"@, context), i);
}

proof fn lemma_both_probes(host: HostView, launchers: Seq<LauncherView>, i: int)
    ensures
        npm_probes(host, launchers).len() == 2 * launchers.len(),
        0 <= i < launchers.len() ==> npm_probes(host, launchers)[2 * i] == launcher_version_request(
            launchers[i],
        ) && npm_probes(host, launchers)[2 * i + 1] == prefix_request(host, launchers[i]),
    decreases launchers.len(),
{
    if launchers.len() > 0 {
        lemma_both_probes(host, launchers.drop_last(), i);
    }
}

/// An instance is bound to the first line that npm printed and that is not blank, read
/// as a path in the current directory, if npm succeeded, the line has no control
/// character and the path can be resolved; otherwise it is bound to nothing.
pub proof fn law_npm_is_bound_to_its_prefix(
    host: HostView,
    context: ContextView,
    reply: Option<OutputView>,
)
    ensures
        ({
            let usable = reply is Some && reply->0.success && (first_line(
                lines(reply->0.stdout),
            ) matches Some(line) && !has_control(line) && creation_path(
                host,
                path_in(context.cwd, written_path(host.platform, line)),
            ) is Ok);
            &&& !usable ==> prefix_scope(host, context, reply) == ScopeView::Generic
            &&& usable ==> prefix_scope(host, context, reply) == ScopeView::NodeGlobal(
                creation_path(
                    host,
                    path_in(
                        context.cwd,
                        written_path(host.platform, first_line(lines(reply->0.stdout))->0),
                    ),
                )->Ok_0,
            )
        }),
{
}

/// A global prefix is offered as a target under its path, and is there if the directory is.
pub proof fn law_prefix_is_a_target(host: HostView, prefix: PathView)
    ensures
        ({
            let target = global_target(host, prefix);
            &&& target.id == "node-global:"@ + path_text(prefix)
            &&& target.kind == TargetKind::NodeGlobal
            &&& target.label == "npm global prefix "@ + path_text(prefix)
            &&& target.path == Some(prefix)
            &&& target.exists <==> host.is_dir(prefix)
        }),
{
}

} // verus!
