//! What is shown to the user.

use vstd::prelude::*;

use crate::context::{ContextView, ProjectContext};
use crate::model::{
    Candidate, CandidateView, CommandSpec, CommandView, InstallPlan, InstanceView, manager_name,
    ManagerInstance, ManagerKind, PlanView, Selection, SelectionView, shown_command, Target, TargetView,
};
use crate::order::{law_sorted_set_is_by_content, lemma_sorted_set, sort_texts, sorted_set};
use crate::path::{FilePath, option_path_same, path_text, PathView, same_option_path};
use crate::text::{
    cat2, cat3, cat4, chars_of, concat, concat_texts, decimal, decimal_text, escape_controls,
    escape_prefix, escape_text, has_control, is_control, join, join_texts, law_escaped_text_has_no_controls,
    law_text_without_controls_is_kept, lemma_add_has_no_controls, list_of, pad_right, pad_text, same,
    views,
};

verus! {

broadcast use crate::text::group_views;

/// How many characters of a foreign text are shown in a line.
pub const MAX_SHOWN_CHARS: usize = 500;

/// `value` with its control characters escaped, cut off behind `limit` characters.
pub open spec fn shown(value: Seq<char>, limit: Option<nat>) -> Seq<char> {
    match limit {
        Some(limit) => if limit < value.len() {
            escape_controls(value.take(limit as int)).push('…')
        } else {
            escape_controls(value)
        },
        None => escape_controls(value),
    }
}

pub fn terminal_safe_with_limit(value: &str, max_chars: Option<usize>) -> (r: String)
    ensures
        r@ == shown(
            value@,
            match max_chars {
                Some(limit) => Some(limit as nat),
                None => None,
            },
        ),
{
    match max_chars {
        Some(limit) => {
            let n: usize = chars_of(value).len();
            let mut r = escape_prefix(value, limit);
            if limit < n {
                r.push('…');
            }
            r
        },
        None => escape_text(value),
    }
}

/// A foreign text as it is shown in a line.
pub open spec fn brief(value: Seq<char>) -> Seq<char> {
    shown(value, Some(MAX_SHOWN_CHARS as nat))
}

pub fn terminal_safe(value: &str) -> (r: String)
    ensures
        r@ == brief(value@),
{
    terminal_safe_with_limit(value, Some(MAX_SHOWN_CHARS))
}

pub fn terminal_safe_complete(value: &str) -> (r: String)
    ensures
        r@ == escape_controls(value@),
{
    terminal_safe_with_limit(value, None)
}

/// What is shown of a foreign text has no control character, and is the text itself
/// if that has none and is short enough.
pub proof fn law_shown_text_has_no_controls(value: Seq<char>, limit: Option<nat>)
    ensures
        !has_control(shown(value, limit)),
        !has_control(brief(value)),
        !has_control(value) && (limit matches Some(n) ==> value.len() <= n) ==> shown(value, limit)
            == value,
{
    lemma_shown_has_no_controls(value, limit);
    lemma_shown_has_no_controls(value, Some(MAX_SHOWN_CHARS as nat));
    law_text_without_controls_is_kept(value);
}

proof fn lemma_shown_has_no_controls(value: Seq<char>, limit: Option<nat>)
    ensures
        !has_control(shown(value, limit)),
{
    law_escaped_text_has_no_controls(value);
    if let Some(n) = limit {
        if n < value.len() {
            let start = value.take(n as int);
            law_escaped_text_has_no_controls(start);
            assert(!has_control(seq!['…']));
            lemma_add_has_no_controls(escape_controls(start), seq!['…']);
            assert(shown(value, limit) =~= escape_controls(start) + seq!['…']);
        }
    }
}

// ---------------------------------------------------------------------------
// Lines
// ---------------------------------------------------------------------------

/// Lines as a text, each of them ended.
pub open spec fn text_of_lines(list: Seq<Seq<char>>) -> Seq<char>
    decreases list.len(),
{
    if list.len() == 0 {
        Seq::empty()
    } else {
        text_of_lines(list.drop_last()) + list.last() + "\n"@
    }
}

fn end_lines(list: &Vec<String>) -> (r: String)
    ensures
        r@ == text_of_lines(views(list@)),
{
    let ghost all = views(list@);
    let mut r = String::new();
    let n: usize = list.len();
    assert(r@ =~= text_of_lines(all.take(0)));
    for i in 0..n
        invariant
            n == list@.len(),
            all == views(list@),
            r@ == text_of_lines(all.take(i as int)),
    {
        proof {
            assert(all.take(i + 1).drop_last() =~= all.take(i as int));
            assert(all.take(i + 1).last() == list@[i as int]@);
        }
        r.append(list[i].as_str());
        r.append("\n");
    }
    assert(all.take(n as int) =~= all);
    r
}

fn append_lines(list: &mut Vec<String>, more: &Vec<String>)
    ensures
        views(final(list)@) == views(old(list)@) + views(more@),
{
    crate::text::extend_texts(list, more);
}

// ---------------------------------------------------------------------------
// Candidates
// ---------------------------------------------------------------------------

/// A version as it is shown.
pub open spec fn shown_version(version: Option<Seq<char>>) -> Seq<char> {
    match version {
        Some(version) => version,
        None => "version ?"@,
    }
}

/// What is said of a candidate that the registry has not confirmed.
pub open spec fn verified_mark(verified: bool) -> Seq<char> {
    if verified {
        ""@
    } else {
        " unverified"@
    }
}

/// A candidate in one line.
pub open spec fn candidate_line(c: CandidateView) -> Seq<char> {
    concat(
        seq![
            manager_name(c.manager),
            " "@,
            pad_right(brief(c.package), 28),
            " "@,
            pad_right(brief(shown_version(c.version)), 14),
            " score="@,
            decimal(c.score as nat),
            verified_mark(c.verified),
            " @ "@,
            brief(c.manager_instance_id),
            " ["@,
            brief(c.source),
            "]"@,
        ],
    )
}

pub fn candidate_label(candidate: &Candidate) -> (r: String)
    ensures
        r@ == candidate_line(candidate@),
{
    let version = match &candidate.version {
        Some(version) => version.as_str(),
        None => "version ?",
    };
    let package = pad_text(terminal_safe(candidate.package.as_str()).as_str(), 28);
    let version = pad_text(terminal_safe(version).as_str(), 14);
    let score = decimal_text(candidate.score as usize);
    let instance = terminal_safe(candidate.manager_instance_id.as_str());
    let source = terminal_safe(candidate.source.as_str());
    let verified = if candidate.verified {
        ""
    } else {
        " unverified"
    };
    let parts = list_of(
        &[
            candidate.manager.name(),
            " ",
            package.as_str(),
            " ",
            version.as_str(),
            " score=",
            score.as_str(),
            verified,
            " @ ",
            instance.as_str(),
            " [",
            source.as_str(),
            "]",
        ],
    );
    assert(views(parts@) =~= seq![
        manager_name(candidate@.manager),
        " "@,
        package@,
        " "@,
        version@,
        " score="@,
        score@,
        verified@,
        " @ "@,
        instance@,
        " ["@,
        source@,
        "]"@,
    ]);
    concat_texts(&parts)
}

/// The candidates for one query: two lines for each that has a description, else
/// one.
pub open spec fn match_lines(candidates: Seq<CandidateView>, query: Seq<char>) -> Seq<Seq<char>>
    decreases candidates.len(),
{
    if candidates.len() == 0 {
        Seq::empty()
    } else {
        let rest = match_lines(candidates.drop_last(), query);
        let last = candidates.last();
        if last.query != query {
            rest
        } else {
            match last.description {
                Some(description) => rest.push("  "@ + candidate_line(last)).push(
                    "      "@ + brief(description),
                ),
                None => rest.push("  "@ + candidate_line(last)),
            }
        }
    }
}

/// What is shown for one query.
pub open spec fn query_lines(candidates: Seq<CandidateView>, query: Seq<char>) -> Seq<Seq<char>> {
    let found = match_lines(candidates, query);
    seq!["\n"@ + brief(query) + ":"@] + if found.len() == 0 {
        seq!["  (no matches)"@]
    } else {
        found
    }
}

/// What is shown for all queries.
pub open spec fn queries_lines(queries: Seq<Seq<char>>, candidates: Seq<CandidateView>) -> Seq<
    Seq<char>,
>
    decreases queries.len(),
{
    if queries.len() == 0 {
        Seq::empty()
    } else {
        queries_lines(queries.drop_last(), candidates) + query_lines(candidates, queries.last())
    }
}

fn push_matches(list: &mut Vec<String>, candidates: &Vec<Candidate>, query: &str)
    ensures
        views(final(list)@) == views(old(list)@) + if match_lines(
            views(candidates@),
            query@,
        ).len() == 0 {
            seq!["  (no matches)"@]
        } else {
            match_lines(views(candidates@), query@)
        },
{
    let ghost start = views(list@);
    let ghost all = views(candidates@);
    let n: usize = candidates.len();
    let mut found = false;
    assert(views(list@) =~= start + match_lines(all.take(0), query@));
    for i in 0..n
        invariant
            n == candidates@.len(),
            all == views(candidates@),
            views(list@) == start + match_lines(all.take(i as int), query@),
            found == (match_lines(all.take(i as int), query@).len() > 0),
    {
        proof {
            assert(all.take(i + 1).drop_last() =~= all.take(i as int));
            assert(all.take(i + 1).last() == candidates@[i as int]@);
        }
        if same(candidates[i].query.as_str(), query) {
            found = true;
            list.push(cat2("  ", candidate_label(&candidates[i]).as_str()));
            if let Some(description) = &candidates[i].description {
                list.push(cat2("      ", terminal_safe(description.as_str()).as_str()));
            }
            assert(views(list@) =~= start + match_lines(all.take(i + 1), query@));
        }
    }
    assert(all.take(n as int) =~= all);
    if !found {
        list.push("  (no matches)".to_owned());
        assert(views(list@) =~= start + seq!["  (no matches)"@]);
    }
}

/// The candidates for all queries as a text.
pub fn render_candidates(queries: &Vec<String>, candidates: &Vec<Candidate>) -> (r: String)
    ensures
        r@ == text_of_lines(queries_lines(views(queries@), views(candidates@))),
{
    let ghost all = views(queries@);
    let ghost given = views(candidates@);
    let mut list: Vec<String> = Vec::new();
    let n: usize = queries.len();
    assert(views(list@) =~= queries_lines(all.take(0), given));
    for i in 0..n
        invariant
            n == queries@.len(),
            all == views(queries@),
            given == views(candidates@),
            views(list@) == queries_lines(all.take(i as int), given),
    {
        proof {
            assert(all.take(i + 1).drop_last() =~= all.take(i as int));
            assert(all.take(i + 1).last() == queries@[i as int]@);
        }
        let ghost before = views(list@);
        list.push(cat3("\n", terminal_safe(queries[i].as_str()).as_str(), ":"));
        push_matches(&mut list, candidates, queries[i].as_str());
        assert(views(list@) =~= before + query_lines(given, all[i as int]));
    }
    assert(all.take(n as int) =~= all);
    end_lines(&list)
}

// ---------------------------------------------------------------------------
// Warnings
// ---------------------------------------------------------------------------

pub open spec fn warning_lines(warnings: Seq<Seq<char>>) -> Seq<Seq<char>> {
    if warnings.len() == 0 {
        Seq::empty()
    } else {
        seq!["\nWarnings:"@] + warnings.map_values(
            |warning: Seq<char>| "  - "@ + brief(warning),
        )
    }
}

/// Warnings as a text; nothing if there are none.
pub fn render_warnings(warnings: &Vec<String>) -> (r: String)
    ensures
        r@ == text_of_lines(warning_lines(views(warnings@))),
{
    let mut list: Vec<String> = Vec::new();
    let n: usize = warnings.len();
    assert(views(warnings@).len() == n);
    if n > 0 {
        let ghost all = views(warnings@).map_values(
            |warning: Seq<char>| "  - "@ + brief(warning),
        );
        list.push("\nWarnings:".to_owned());
        assert(views(list@) =~= seq!["\nWarnings:"@] + all.take(0));
        for i in 0..n
            invariant
                n == warnings@.len(),
                all == views(warnings@).map_values(
                    |warning: Seq<char>| "  - "@ + brief(warning),
                ),
                views(list@) == seq!["\nWarnings:"@] + all.take(i as int),
        {
            let line = cat2("  - ", terminal_safe(warnings[i].as_str()).as_str());
            list.push(line);
            proof {
                assert(all[i as int] == line@);
                assert(views(list@) =~= seq!["\nWarnings:"@] + all.take(i + 1));
            }
        }
        assert(all.take(n as int) =~= all);
    }
    end_lines(&list)
}

// ---------------------------------------------------------------------------
// Doctor
// ---------------------------------------------------------------------------

pub open spec fn instance_line(instance: InstanceView) -> Seq<char> {
    concat(
        seq![
            "  "@,
            manager_name(instance.kind),
            " "@,
            pad_right(brief(path_text(instance.executable)), 36),
            " "@,
            brief(instance.version),
            " ["@,
            brief(instance.id),
            "]"@,
        ],
    )
}

pub open spec fn target_line(target: TargetView) -> Seq<char> {
    concat(
        seq![
            "  "@,
            pad_right(brief(target.id), 36),
            " "@,
            brief(target.label),
            if target.exists {
                ""@
            } else {
                " (new)"@
            },
        ],
    )
}

/// What is said of the project.
pub open spec fn project_lines(context: ContextView) -> Seq<Seq<char>> {
    let cwd = seq!["Project: "@ + brief(path_text(context.cwd))];
    let root = match context.project_root {
        Some(root) => seq!["Project root: "@ + brief(path_text(root))],
        None => Seq::empty(),
    };
    let workspace = match context.workspace_root {
        Some(root) => if option_path_same(context.workspace_root, context.project_root) {
            Seq::empty()
        } else {
            seq!["Workspace root: "@ + brief(path_text(root))]
        },
        None => Seq::empty(),
    };
    let markers = if context.markers.len() == 0 {
        Seq::empty()
    } else {
        seq!["Markers: "@ + brief(join(context.markers, ", "@))]
    };
    cwd + root + workspace + markers
}

/// What `mate doctor` shows.
pub open spec fn doctor_lines(context: ContextView, instances: Seq<InstanceView>) -> Seq<Seq<char>> {
    let managers = if instances.len() == 0 {
        seq!["  (none found)"@]
    } else {
        instances.map_values(|instance: InstanceView| instance_line(instance))
    };
    project_lines(context) + seq!["\nManagers:"@] + managers + seq!["\nTargets:"@]
        + context.targets.map_values(|target: TargetView| target_line(target))
}

fn make_instance_line(instance: &ManagerInstance) -> (r: String)
    ensures
        r@ == instance_line(instance@),
{
    let executable = pad_text(
        terminal_safe(instance.executable.text().as_str()).as_str(),
        36,
    );
    let version = terminal_safe(instance.version.as_str());
    let id = terminal_safe(instance.id.as_str());
    let parts = list_of(
        &[
            "  ",
            instance.kind.name(),
            " ",
            executable.as_str(),
            " ",
            version.as_str(),
            " [",
            id.as_str(),
            "]",
        ],
    );
    assert(views(parts@) =~= seq![
        "  "@,
        manager_name(instance@.kind),
        " "@,
        executable@,
        " "@,
        version@,
        " ["@,
        id@,
        "]"@,
    ]);
    concat_texts(&parts)
}

fn make_target_line(target: &Target) -> (r: String)
    ensures
        r@ == target_line(target@),
{
    let id = pad_text(terminal_safe(target.id.as_str()).as_str(), 36);
    let label = terminal_safe(target.label.as_str());
    let mark = if target.exists {
        ""
    } else {
        " (new)"
    };
    let parts = list_of(&["  ", id.as_str(), " ", label.as_str(), mark]);
    assert(views(parts@) =~= seq!["  "@, id@, " "@, label@, mark@]);
    concat_texts(&parts)
}

fn make_project_lines(context: &ProjectContext) -> (r: Vec<String>)
    ensures
        views(r@) == project_lines(context@),
{
    let mut list: Vec<String> = Vec::new();
    list.push(cat2("Project: ", terminal_safe(context.cwd.text().as_str()).as_str()));
    if let Some(root) = &context.project_root {
        list.push(cat2("Project root: ", terminal_safe(root.text().as_str()).as_str()));
    }
    if !same_option_path(&context.workspace_root, &context.project_root) {
        if let Some(root) = &context.workspace_root {
            list.push(cat2("Workspace root: ", terminal_safe(root.text().as_str()).as_str()));
        }
    }
    assert(context@.markers.len() == context.markers@.len());
    if context.markers.len() > 0 {
        let markers = join_texts(&context.markers, ", ");
        list.push(cat2("Markers: ", terminal_safe(markers.as_str()).as_str()));
    }
    assert(views(list@) =~= project_lines(context@));
    list
}

/// What `mate doctor` shows, as a text.
pub fn render_doctor(context: &ProjectContext, instances: &Vec<ManagerInstance>) -> (r: String)
    ensures
        r@ == text_of_lines(doctor_lines(context@, views(instances@))),
{
    let mut list = make_project_lines(context);
    list.push("\nManagers:".to_owned());
    let n: usize = instances.len();
    let ghost start = views(list@);
    let ghost lines = views(instances@).map_values(
        |instance: InstanceView| instance_line(instance),
    );
    assert(views(list@) =~= start + lines.take(0));
    for i in 0..n
        invariant
            n == instances@.len(),
            lines == views(instances@).map_values(
                |instance: InstanceView| instance_line(instance),
            ),
            views(list@) == start + lines.take(i as int),
    {
        let line = make_instance_line(&instances[i]);
        list.push(line);
        proof {
            assert(lines[i as int] == line@);
            assert(views(list@) =~= start + lines.take(i + 1));
        }
    }
    assert(lines.take(n as int) =~= lines);
    if n == 0 {
        list.push("  (none found)".to_owned());
        assert(views(list@) =~= start + seq!["  (none found)"@]);
    }
    list.push("\nTargets:".to_owned());
    let m: usize = context.targets.len();
    let ghost start = views(list@);
    let ghost lines = context@.targets.map_values(|target: TargetView| target_line(target));
    assert(views(list@) =~= start + lines.take(0));
    for i in 0..m
        invariant
            m == context.targets@.len(),
            lines == context@.targets.map_values(|target: TargetView| target_line(target)),
            views(list@) == start + lines.take(i as int),
    {
        let line = make_target_line(&context.targets[i]);
        list.push(line);
        proof {
            assert(lines[i as int] == line@);
            assert(views(list@) =~= start + lines.take(i + 1));
        }
    }
    assert(lines.take(m as int) =~= lines);
    assert(views(list@) =~= doctor_lines(context@, views(instances@)));
    end_lines(&list)
}

// ---------------------------------------------------------------------------
// Plans
// ---------------------------------------------------------------------------

pub open spec fn selection_line(selection: SelectionView) -> Seq<char> {
    concat(
        seq![
            "  "@,
            brief(selection.query),
            " -> "@,
            manager_name(selection.candidate.manager),
            ":"@,
            brief(selection.candidate.package),
            " -> "@,
            brief(selection.target.id),
        ],
    )
}

fn make_selection_line(selection: &Selection) -> (r: String)
    ensures
        r@ == selection_line(selection@),
{
    let query = terminal_safe(selection.query.as_str());
    let package = terminal_safe(selection.candidate.package.as_str());
    let target = terminal_safe(selection.target.id.as_str());
    let parts = list_of(
        &[
            "  ",
            query.as_str(),
            " -> ",
            selection.candidate.manager.name(),
            ":",
            package.as_str(),
            " -> ",
            target.as_str(),
        ],
    );
    assert(views(parts@) =~= seq![
        "  "@,
        query@,
        " -> "@,
        manager_name(selection@.candidate.manager),
        ":"@,
        package@,
        " -> "@,
        target@,
    ]);
    concat_texts(&parts)
}

/// What is said of the variables that a step does not inherit.
pub open spec fn removal_lines(prefixes: Seq<Seq<char>>) -> Seq<Seq<char>> {
    if prefixes.len() == 0 {
        seq!["     Unset inherited environment prefixes: (none)"@]
    } else {
        seq![
            "     Unset inherited environment prefixes (every inherited variable whose name starts with the prefix; matching is case-insensitive on Windows):"@,
        ] + sorted_set(prefixes).map_values(
            |prefix: Seq<char>| "       - "@ + escape_controls(prefix) + "*"@,
        )
    }
}

fn make_removal_lines(prefixes: &Vec<String>) -> (r: Vec<String>)
    ensures
        views(r@) == removal_lines(views(prefixes@)),
{
    let mut list: Vec<String> = Vec::new();
    assert(views(prefixes@).len() == prefixes@.len());
    if prefixes.len() == 0 {
        list.push("     Unset inherited environment prefixes: (none)".to_owned());
        assert(views(list@) =~= removal_lines(views(prefixes@)));
        return list;
    }
    let sorted = sort_texts(prefixes);
    let ghost all = sorted_set(views(prefixes@)).map_values(
        |prefix: Seq<char>| "       - "@ + escape_controls(prefix) + "*"@,
    );
    let n: usize = sorted.len();
    list.push(
        "     Unset inherited environment prefixes (every inherited variable whose name starts with the prefix; matching is case-insensitive on Windows):".to_owned(),
    );
    let ghost start = views(list@);
    assert(views(list@) =~= start + all.take(0));
    for i in 0..n
        invariant
            n == sorted@.len(),
            views(sorted@) == sorted_set(views(prefixes@)),
            all == sorted_set(views(prefixes@)).map_values(
                |prefix: Seq<char>| "       - "@ + escape_controls(prefix) + "*"@,
            ),
            views(list@) == start + all.take(i as int),
    {
        let line = cat3("       - ", terminal_safe_complete(sorted[i].as_str()).as_str(), "*");
        list.push(line);
        proof {
            assert(views(sorted@)[i as int] == sorted@[i as int]@);
            assert(all[i as int] == line@);
            assert(views(list@) =~= start + all.take(i + 1));
        }
    }
    assert(all.take(n as int) =~= all);
    assert(views(list@) =~= removal_lines(views(prefixes@)));
    list
}

/// What is said of the variables that a step sets.
pub open spec fn setting_lines(env: Seq<(Seq<char>, Seq<char>)>) -> Seq<Seq<char>> {
    if env.len() == 0 {
        seq!["     Set/override environment: (none)"@]
    } else {
        seq!["     Set/override environment (applied after prefix removals):"@] + env.map_values(
            |v: (Seq<char>, Seq<char>)|
                "       - "@ + escape_controls(v.0) + "="@ + escape_controls(v.1),
        )
    }
}

fn make_setting_lines(step: &CommandSpec) -> (r: Vec<String>)
    ensures
        views(r@) == setting_lines(step@.env),
{
    let mut list: Vec<String> = Vec::new();
    let entries = step.env.entries();
    let n: usize = entries.len();
    assert(step@.env.len() == n);
    if n == 0 {
        list.push("     Set/override environment: (none)".to_owned());
        assert(views(list@) =~= setting_lines(step@.env));
        return list;
    }
    let ghost all = step@.env.map_values(
        |v: (Seq<char>, Seq<char>)|
            "       - "@ + escape_controls(v.0) + "="@ + escape_controls(v.1),
    );
    list.push("     Set/override environment (applied after prefix removals):".to_owned());
    let ghost start = views(list@);
    assert(views(list@) =~= start + all.take(0));
    for i in 0..n
        invariant
            n == entries@.len(),
            views(entries@) == step@.env,
            all == step@.env.map_values(
                |v: (Seq<char>, Seq<char>)|
                    "       - "@ + escape_controls(v.0) + "="@ + escape_controls(v.1),
            ),
            views(list@) == start + all.take(i as int),
    {
        let line = cat4(
            "       - ",
            terminal_safe_complete(entries[i].name.as_str()).as_str(),
            "=",
            terminal_safe_complete(entries[i].value.as_str()).as_str(),
        );
        list.push(line);
        proof {
            assert(step@.env[i as int] == entries@[i as int]@);
            assert(all[i as int] == line@);
            assert(views(list@) =~= start + all.take(i + 1));
        }
    }
    assert(all.take(n as int) =~= all);
    assert(views(list@) =~= setting_lines(step@.env));
    list
}

pub open spec fn guard_line(guard: Option<PathView>) -> Seq<char> {
    match guard {
        Some(path) =>
            "     Plan-wide creation/overwrite guard: before any command, abort the entire plan if this filesystem entry exists, including as a broken symlink (and check again before this step): "@
                + escape_controls(path_text(path)),
        None =>
            "     Plan-wide creation/overwrite guard: (no must-not-exist path precondition for this step)"@,
    }
}

pub open spec fn privilege_line(requires_admin: bool) -> Seq<char> {
    if requires_admin {
        "     Privileges: "@ + "administrator/root elevation required"@
    } else {
        "     Privileges: "@
            + "user context required; no elevation requested (mate refuses this plan when run as root)"@
    }
}

pub open spec fn directory_line(cwd: Option<PathView>, inherited: PathView) -> Seq<char> {
    match cwd {
        Some(cwd) => "     Working directory ("@ + "explicit"@ + "): "@ + escape_controls(
            path_text(cwd),
        ),
        None => "     Working directory ("@ + "inherited"@ + "): "@ + escape_controls(
            path_text(inherited),
        ),
    }
}

/// What is said of a step.
pub open spec fn step_lines(step: CommandView, index: nat, inherited: PathView) -> Seq<Seq<char>> {
    seq![
        "  "@ + decimal(index + 1) + ". "@ + escape_controls(shown_command(step)),
        "     Label: "@ + escape_controls(step.label),
        directory_line(step.cwd, inherited),
    ] + removal_lines(step.env_remove_prefixes) + setting_lines(step.env) + seq![
        guard_line(step.must_not_exist),
        privilege_line(step.requires_admin),
    ]
}

fn make_step_lines(step: &CommandSpec, index: usize, inherited: &FilePath) -> (r: Vec<String>)
    requires
        index < usize::MAX,
    ensures
        views(r@) == step_lines(step@, index as nat, inherited@),
{
    let mut list: Vec<String> = Vec::new();
    list.push(
        cat4(
            "  ",
            decimal_text(index + 1).as_str(),
            ". ",
            terminal_safe_complete(step.display_command().as_str()).as_str(),
        ),
    );
    list.push(cat2("     Label: ", terminal_safe_complete(step.label.as_str()).as_str()));
    let directory = match &step.cwd {
        Some(cwd) => cat4(
            "     Working directory (",
            "explicit",
            "): ",
            terminal_safe_complete(cwd.text().as_str()).as_str(),
        ),
        None => cat4(
            "     Working directory (",
            "inherited",
            "): ",
            terminal_safe_complete(inherited.text().as_str()).as_str(),
        ),
    };
    list.push(directory);
    append_lines(&mut list, &make_removal_lines(&step.env_remove_prefixes));
    append_lines(&mut list, &make_setting_lines(step));
    let guard = match &step.must_not_exist {
        Some(path) => cat2(
            "     Plan-wide creation/overwrite guard: before any command, abort the entire plan if this filesystem entry exists, including as a broken symlink (and check again before this step): ",
            terminal_safe_complete(path.text().as_str()).as_str(),
        ),
        None => "     Plan-wide creation/overwrite guard: (no must-not-exist path precondition for this step)".to_owned(),
    };
    list.push(guard);
    let privileges = if step.requires_admin {
        "administrator/root elevation required"
    } else {
        "user context required; no elevation requested (mate refuses this plan when run as root)"
    };
    list.push(cat2("     Privileges: ", privileges));
    assert(views(list@) =~= step_lines(step@, index as nat, inherited@));
    list
}

/// What is said of all steps.
pub open spec fn steps_lines(steps: Seq<CommandView>, inherited: PathView) -> Seq<Seq<char>>
    decreases steps.len(),
{
    if steps.len() == 0 {
        Seq::empty()
    } else {
        steps_lines(steps.drop_last(), inherited) + step_lines(
            steps.last(),
            (steps.len() - 1) as nat,
            inherited,
        )
    }
}

pub open spec fn closing_lines() -> Seq<Seq<char>> {
    seq![
        "\nNo command above is executed until this complete plan is confirmed."@,
        "All path guards are checked before step 1 and again before their step; steps run serially, stop on the first failure, and inherit terminal input/output."@,
        "A step requiring admin privileges invokes trusted system sudo when mate is not already running as root; execution fails if it is unavailable."@,
    ]
}

/// What is said of a plan.
pub open spec fn plan_lines(plan: PlanView, inherited: PathView) -> Seq<Seq<char>> {
    seq!["\nInstallation plan:"@] + plan.selections.map_values(
        |selection: SelectionView| selection_line(selection),
    ) + seq!["\nCommands:"@] + steps_lines(plan.steps, inherited) + closing_lines()
}

/// A plan as a text: every command with its directory, the changes to its
/// environment, its guard and its privileges.
pub fn render_plan(plan: &InstallPlan, inherited_cwd: &FilePath) -> (r: String)
    ensures
        r@ == text_of_lines(plan_lines(plan@, inherited_cwd@)),
{
    let mut list: Vec<String> = Vec::new();
    list.push("\nInstallation plan:".to_owned());
    let n: usize = plan.selections.len();
    let ghost start = views(list@);
    let ghost all = plan@.selections.map_values(
        |selection: SelectionView| selection_line(selection),
    );
    assert(views(list@) =~= start + all.take(0));
    for i in 0..n
        invariant
            n == plan.selections@.len(),
            all == plan@.selections.map_values(
                |selection: SelectionView| selection_line(selection),
            ),
            views(list@) == start + all.take(i as int),
    {
        let line = make_selection_line(&plan.selections[i]);
        list.push(line);
        proof {
            assert(all[i as int] == line@);
            assert(views(list@) =~= start + all.take(i + 1));
        }
    }
    assert(all.take(n as int) =~= all);
    list.push("\nCommands:".to_owned());
    let ghost before = views(list@);
    let ghost steps = plan@.steps;
    let m: usize = plan.steps.len();
    assert(views(list@) =~= before + steps_lines(steps.take(0), inherited_cwd@));
    for i in 0..m
        invariant
            m == plan.steps@.len(),
            steps == plan@.steps,
            views(list@) == before + steps_lines(steps.take(i as int), inherited_cwd@),
    {
        proof {
            assert(steps.take(i + 1).drop_last() =~= steps.take(i as int));
            assert(steps.take(i + 1).last() == plan.steps@[i as int]@);
        }
        append_lines(&mut list, &make_step_lines(&plan.steps[i], i, inherited_cwd));
        assert(views(list@) =~= before + steps_lines(steps.take(i + 1), inherited_cwd@));
    }
    assert(steps.take(m as int) =~= steps);
    list.push("\nNo command above is executed until this complete plan is confirmed.".to_owned());
    list.push(
        "All path guards are checked before step 1 and again before their step; steps run serially, stop on the first failure, and inherit terminal input/output.".to_owned(),
    );
    list.push(
        "A step requiring admin privileges invokes trusted system sudo when mate is not already running as root; execution fails if it is unavailable.".to_owned(),
    );
    assert(views(list@) =~= plan_lines(plan@, inherited_cwd@));
    end_lines(&list)
}

/// Whether the lines of `part` stand in `list`, one behind the other.
pub open spec fn has_lines(list: Seq<Seq<char>>, part: Seq<Seq<char>>) -> bool {
    exists|k: int|
        0 <= k && k + part.len() <= list.len() && #[trigger] list.subrange(k, k + part.len())
            == part
}

proof fn lemma_steps_disclosed(steps: Seq<CommandView>, inherited: PathView, i: int)
    requires
        0 <= i < steps.len(),
    ensures
        has_lines(steps_lines(steps, inherited), step_lines(steps[i], i as nat, inherited)),
    decreases steps.len(),
{
    let rest = steps_lines(steps.drop_last(), inherited);
    let all = steps_lines(steps, inherited);
    let part = step_lines(steps[i], i as nat, inherited);
    if i < steps.len() - 1 {
        lemma_steps_disclosed(steps.drop_last(), inherited, i);
        let k = choose|k: int|
            0 <= k && k + part.len() <= rest.len() && #[trigger] rest.subrange(k, k + part.len())
                == part;
        assert(all.subrange(k, k + part.len()) =~= part);
    } else {
        let k = rest.len() as int;
        assert(all.subrange(k, k + part.len()) =~= part);
    }
}

/// Every step is shown, in the order in which the steps run, with its command, its
/// directory, the changes to its environment, its guard and its privileges; and
/// every selection is shown.
pub proof fn law_plan_discloses_everything(plan: PlanView, inherited: PathView)
    ensures
        forall|i: int|
            0 <= i < plan.steps.len() ==> has_lines(
                plan_lines(plan, inherited),
                step_lines(#[trigger] plan.steps[i], i as nat, inherited),
            ),
        forall|i: int|
            0 <= i < plan.selections.len() ==> plan_lines(plan, inherited).contains(
                selection_line(#[trigger] plan.selections[i]),
            ),
{
    let all = plan_lines(plan, inherited);
    let shown = plan.selections.map_values(|selection: SelectionView| selection_line(selection));
    let head = seq!["\nInstallation plan:"@] + shown + seq!["\nCommands:"@];
    let steps = steps_lines(plan.steps, inherited);
    assert forall|i: int| 0 <= i < plan.steps.len() implies has_lines(
        all,
        step_lines(#[trigger] plan.steps[i], i as nat, inherited),
    ) by {
        let part = step_lines(plan.steps[i], i as nat, inherited);
        lemma_steps_disclosed(plan.steps, inherited, i);
        let k = choose|k: int|
            0 <= k && k + part.len() <= steps.len() && #[trigger] steps.subrange(k, k + part.len())
                == part;
        let m = head.len() + k;
        assert(all.subrange(m, m + part.len()) =~= part);
    }
    assert forall|i: int| 0 <= i < plan.selections.len() implies all.contains(
        selection_line(#[trigger] plan.selections[i]),
    ) by {
        assert(shown[i] == selection_line(plan.selections[i]));
        assert(all[i + 1] == shown[i]);
    }
}

/// Whether two plans are the same but for the order in which their steps list the
/// prefixes to remove, and for how often they list each.
pub open spec fn same_but_for_prefix_order(a: PlanView, b: PlanView) -> bool {
    &&& a.selections == b.selections
    &&& a.steps.len() == b.steps.len()
    &&& forall|i: int|
        0 <= i < a.steps.len() ==> same_step_but_for_prefix_order(
            #[trigger] a.steps[i],
            #[trigger] b.steps[i],
        )
}

pub open spec fn same_step_but_for_prefix_order(a: CommandView, b: CommandView) -> bool {
    &&& b == (CommandView { env_remove_prefixes: b.env_remove_prefixes, ..a })
    &&& forall|prefix: Seq<char>|
        a.env_remove_prefixes.contains(prefix) <==> b.env_remove_prefixes.contains(prefix)
}

/// What is shown of a plan does not depend on the order in which its steps list the
/// prefixes to remove, nor on how often they list one.
pub proof fn law_shown_plan_ignores_prefix_order(a: PlanView, b: PlanView, inherited: PathView)
    requires
        same_but_for_prefix_order(a, b),
    ensures
        plan_lines(a, inherited) == plan_lines(b, inherited),
{
    lemma_steps_ignore_prefix_order(a.steps, b.steps, inherited);
}

proof fn lemma_steps_ignore_prefix_order(
    a: Seq<CommandView>,
    b: Seq<CommandView>,
    inherited: PathView,
)
    requires
        a.len() == b.len(),
        forall|i: int|
            0 <= i < a.len() ==> same_step_but_for_prefix_order(
                #[trigger] a[i],
                #[trigger] b[i],
            ),
    ensures
        steps_lines(a, inherited) == steps_lines(b, inherited),
    decreases a.len(),
{
    if a.len() > 0 {
        lemma_steps_ignore_prefix_order(a.drop_last(), b.drop_last(), inherited);
        let n = a.len() - 1;
        assert(same_step_but_for_prefix_order(a[n], b[n]));
        lemma_removals_ignore_order(a[n].env_remove_prefixes, b[n].env_remove_prefixes);
    }
}

proof fn lemma_removals_ignore_order(a: Seq<Seq<char>>, b: Seq<Seq<char>>)
    requires
        forall|prefix: Seq<char>| a.contains(prefix) <==> b.contains(prefix),
    ensures
        removal_lines(a) == removal_lines(b),
{
    law_sorted_set_is_by_content(a, b);
    if a.len() > 0 {
        assert(a.contains(a[0]));
        assert(b.contains(a[0]));
    }
    if b.len() > 0 {
        assert(b.contains(b[0]));
        assert(a.contains(b[0]));
    }
}

/// Whether a text has no control character but the line break.
pub open spec fn only_breaks(s: Seq<char>) -> bool {
    forall|i: int| 0 <= i < s.len() && is_control(#[trigger] s[i]) ==> s[i] == '\n'
}

/// Whether no line has a control character.
pub open spec fn clean_lines(list: Seq<Seq<char>>) -> bool {
    forall|k: int| 0 <= k < list.len() ==> !has_control(#[trigger] list[k])
}

/// Whatever a plan holds, the only control character in what is shown of it is the
/// line break, and no line on a selection or a step has any: nothing that a plan
/// holds starts a line.
pub proof fn law_shown_plan_has_no_controls(plan: PlanView, inherited: PathView)
    ensures
        only_breaks(text_of_lines(plan_lines(plan, inherited))),
        clean_lines(plan.selections.map_values(|selection: SelectionView| selection_line(selection))),
        clean_lines(steps_lines(plan.steps, inherited)),
{
    let selections = plan.selections.map_values(
        |selection: SelectionView| selection_line(selection),
    );
    assert forall|k: int| 0 <= k < selections.len() implies !has_control(
        #[trigger] selections[k],
    ) by {
        lemma_selection_line(plan.selections[k]);
    }
    lemma_steps_lines(plan.steps, inherited);
    let all = plan_lines(plan, inherited);
    let closing = closing_lines();
    let steps = steps_lines(plan.steps, inherited);
    lemma_closing_lines();
    assert(only_breaks("\nInstallation plan:"@)) by {
        reveal_strlit("\nInstallation plan:");
    }
    assert(only_breaks("\nCommands:"@)) by {
        reveal_strlit("\nCommands:");
    }
    assert forall|k: int| 0 <= k < all.len() implies only_breaks(#[trigger] all[k]) by {
        let s = selections.len() as int;
        let m = steps.len() as int;
        if 1 <= k < 1 + s {
            assert(all[k] == selections[k - 1]);
        } else if 2 + s <= k < 2 + s + m {
            assert(all[k] == steps[k - 2 - s]);
        } else if 2 + s + m <= k {
            assert(all[k] == closing[k - 2 - s - m]);
        }
    }
    lemma_text_of_lines_breaks(all);
}

proof fn lemma_text_of_lines_breaks(list: Seq<Seq<char>>)
    requires
        forall|k: int| 0 <= k < list.len() ==> only_breaks(#[trigger] list[k]),
    ensures
        only_breaks(text_of_lines(list)),
    decreases list.len(),
{
    if list.len() > 0 {
        lemma_text_of_lines_breaks(list.drop_last());
        reveal_strlit("\n");
        let rest = text_of_lines(list.drop_last());
        let last = list[list.len() - 1];
        let all = text_of_lines(list);
        assert forall|i: int| 0 <= i < all.len() && is_control(#[trigger] all[i]) implies all[i]
            == '\n' by {
            if i < rest.len() {
                assert(all[i] == rest[i]);
            } else if i < rest.len() + last.len() {
                assert(all[i] == last[i - rest.len()]);
            }
        }
    }
}

proof fn lemma_concat_has_no_controls(parts: Seq<Seq<char>>)
    requires
        clean_lines(parts),
    ensures
        !has_control(concat(parts)),
    decreases parts.len(),
{
    if parts.len() > 0 {
        lemma_concat_has_no_controls(parts.drop_last());
        assert(!has_control(parts[parts.len() - 1]));
        lemma_add_has_no_controls(concat(parts.drop_last()), parts.last());
    }
}

proof fn lemma_manager_name(kind: ManagerKind)
    ensures
        !has_control(manager_name(kind)),
{
    reveal_strlit("apt");
    reveal_strlit("pacman");
    reveal_strlit("brew");
    reveal_strlit("cargo");
    reveal_strlit("npm");
    reveal_strlit("npx");
    reveal_strlit("pip");
    reveal_strlit("uv");
}

proof fn lemma_selection_line(selection: SelectionView)
    ensures
        !has_control(selection_line(selection)),
{
    let parts = seq![
        "  "@,
        brief(selection.query),
        " -> "@,
        manager_name(selection.candidate.manager),
        ":"@,
        brief(selection.candidate.package),
        " -> "@,
        brief(selection.target.id),
    ];
    assert(clean_lines(parts)) by {
        reveal_strlit("  ");
        reveal_strlit(" -> ");
        reveal_strlit(":");
        lemma_shown_has_no_controls(selection.query, Some(MAX_SHOWN_CHARS as nat));
        lemma_shown_has_no_controls(selection.candidate.package, Some(MAX_SHOWN_CHARS as nat));
        lemma_shown_has_no_controls(selection.target.id, Some(MAX_SHOWN_CHARS as nat));
        lemma_manager_name(selection.candidate.manager);
    }
    lemma_concat_has_no_controls(parts);
}

proof fn lemma_decimal_has_no_controls(n: nat)
    ensures
        !has_control(decimal(n)),
    decreases n,
{
    if n >= 10 {
        lemma_decimal_has_no_controls(n / 10);
    }
}

proof fn lemma_removal_lines(prefixes: Seq<Seq<char>>)
    ensures
        clean_lines(removal_lines(prefixes)),
{
    let list = removal_lines(prefixes);
    assert(!has_control(list[0])) by {
        reveal_strlit("     Unset inherited environment prefixes: (none)");
        reveal_strlit(
            "     Unset inherited environment prefixes (every inherited variable whose name starts with the prefix; matching is case-insensitive on Windows):",
        );
    }
    let sorted = sorted_set(prefixes);
    assert forall|k: int| 0 <= k < list.len() implies !has_control(#[trigger] list[k]) by {
        if k > 0 {
            let prefix = escape_controls(sorted[k - 1]);
            law_escaped_text_has_no_controls(sorted[k - 1]);
            reveal_strlit("       - ");
            reveal_strlit("*");
            lemma_add_has_no_controls("       - "@, prefix);
            lemma_add_has_no_controls("       - "@ + prefix, "*"@);
            assert(list[k] == "       - "@ + prefix + "*"@);
        }
    }
}

proof fn lemma_setting_lines(env: Seq<(Seq<char>, Seq<char>)>)
    ensures
        clean_lines(setting_lines(env)),
{
    let list = setting_lines(env);
    assert(!has_control(list[0])) by {
        reveal_strlit("     Set/override environment: (none)");
        reveal_strlit("     Set/override environment (applied after prefix removals):");
    }
    assert forall|k: int| 0 <= k < list.len() implies !has_control(#[trigger] list[k]) by {
        if k > 0 {
            let name = escape_controls(env[k - 1].0);
            let value = escape_controls(env[k - 1].1);
            law_escaped_text_has_no_controls(env[k - 1].0);
            law_escaped_text_has_no_controls(env[k - 1].1);
            reveal_strlit("       - ");
            reveal_strlit("=");
            lemma_add_has_no_controls("       - "@, name);
            lemma_add_has_no_controls("       - "@ + name, "="@);
            lemma_add_has_no_controls("       - "@ + name + "="@, value);
            assert(list[k] == "       - "@ + name + "="@ + value);
        }
    }
}

proof fn lemma_directory_line(cwd: Option<PathView>, inherited: PathView)
    ensures
        !has_control(directory_line(cwd, inherited)),
{
    let (origin, path) = match cwd {
        Some(cwd) => ("explicit"@, cwd),
        None => ("inherited"@, inherited),
    };
    let text = escape_controls(path_text(path));
    law_escaped_text_has_no_controls(path_text(path));
    reveal_strlit("     Working directory (");
    reveal_strlit("explicit");
    reveal_strlit("inherited");
    reveal_strlit("): ");
    lemma_add_has_no_controls("     Working directory ("@, origin);
    lemma_add_has_no_controls("     Working directory ("@ + origin, "): "@);
    lemma_add_has_no_controls("     Working directory ("@ + origin + "): "@, text);
}

proof fn lemma_guard_line(guard: Option<PathView>)
    ensures
        !has_control(guard_line(guard)),
{
    match guard {
        Some(path) => {
            reveal_strlit(
                "     Plan-wide creation/overwrite guard: before any command, abort the entire plan if this filesystem entry exists, including as a broken symlink (and check again before this step): ",
            );
            law_escaped_text_has_no_controls(path_text(path));
            lemma_add_has_no_controls(
                "     Plan-wide creation/overwrite guard: before any command, abort the entire plan if this filesystem entry exists, including as a broken symlink (and check again before this step): "@,
                escape_controls(path_text(path)),
            );
        },
        None => {
            reveal_strlit(
                "     Plan-wide creation/overwrite guard: (no must-not-exist path precondition for this step)",
            );
        },
    }
}

proof fn lemma_privilege_line(requires_admin: bool)
    ensures
        !has_control(privilege_line(requires_admin)),
{
    reveal_strlit("     Privileges: ");
    reveal_strlit("administrator/root elevation required");
    reveal_strlit(
        "user context required; no elevation requested (mate refuses this plan when run as root)",
    );
    lemma_add_has_no_controls(
        "     Privileges: "@,
        if requires_admin {
            "administrator/root elevation required"@
        } else {
            "user context required; no elevation requested (mate refuses this plan when run as root)"@
        },
    );
}

proof fn lemma_command_line(step: CommandView, index: nat)
    ensures
        !has_control("  "@ + decimal(index + 1) + ". "@ + escape_controls(shown_command(step))),
        !has_control("     Label: "@ + escape_controls(step.label)),
{
    reveal_strlit("  ");
    reveal_strlit(". ");
    reveal_strlit("     Label: ");
    lemma_decimal_has_no_controls(index + 1);
    law_escaped_text_has_no_controls(shown_command(step));
    law_escaped_text_has_no_controls(step.label);
    lemma_add_has_no_controls("  "@, decimal(index + 1));
    lemma_add_has_no_controls("  "@ + decimal(index + 1), ". "@);
    lemma_add_has_no_controls(
        "  "@ + decimal(index + 1) + ". "@,
        escape_controls(shown_command(step)),
    );
    lemma_add_has_no_controls("     Label: "@, escape_controls(step.label));
}

proof fn lemma_clean_lines_add(a: Seq<Seq<char>>, b: Seq<Seq<char>>)
    requires
        clean_lines(a),
        clean_lines(b),
    ensures
        clean_lines(a + b),
{
    assert forall|k: int| 0 <= k < (a + b).len() implies !has_control(#[trigger] (a + b)[k]) by {
        if k < a.len() {
            assert((a + b)[k] == a[k]);
        } else {
            assert((a + b)[k] == b[k - a.len()]);
        }
    }
}

proof fn lemma_step_lines(step: CommandView, index: nat, inherited: PathView)
    ensures
        clean_lines(step_lines(step, index, inherited)),
{
    lemma_command_line(step, index);
    lemma_directory_line(step.cwd, inherited);
    lemma_removal_lines(step.env_remove_prefixes);
    lemma_setting_lines(step.env);
    lemma_guard_line(step.must_not_exist);
    lemma_privilege_line(step.requires_admin);
    let head = seq![
        "  "@ + decimal(index + 1) + ". "@ + escape_controls(shown_command(step)),
        "     Label: "@ + escape_controls(step.label),
        directory_line(step.cwd, inherited),
    ];
    let removals = removal_lines(step.env_remove_prefixes);
    let settings = setting_lines(step.env);
    let tail = seq![guard_line(step.must_not_exist), privilege_line(step.requires_admin)];
    assert(clean_lines(head));
    assert(clean_lines(tail));
    lemma_clean_lines_add(head, removals);
    lemma_clean_lines_add(head + removals, settings);
    lemma_clean_lines_add(head + removals + settings, tail);
}

proof fn lemma_steps_lines(steps: Seq<CommandView>, inherited: PathView)
    ensures
        clean_lines(steps_lines(steps, inherited)),
    decreases steps.len(),
{
    if steps.len() > 0 {
        lemma_steps_lines(steps.drop_last(), inherited);
        lemma_step_lines(steps.last(), (steps.len() - 1) as nat, inherited);
        lemma_clean_lines_add(
            steps_lines(steps.drop_last(), inherited),
            step_lines(steps.last(), (steps.len() - 1) as nat, inherited),
        );
    }
}

proof fn lemma_closing_lines()
    ensures
        forall|k: int| 0 <= k < closing_lines().len() ==> only_breaks(#[trigger] closing_lines()[k]),
{
    let list = closing_lines();
    assert(only_breaks(list[0])) by {
        reveal_strlit("\nNo command above is executed until this complete plan is confirmed.");
    }
    assert(only_breaks(list[1])) by {
        reveal_strlit(
            "All path guards are checked before step 1 and again before their step; steps run serially, stop on the first failure, and inherit terminal input/output.",
        );
    }
    assert(only_breaks(list[2])) by {
        reveal_strlit(
            "A step requiring admin privileges invokes trusted system sudo when mate is not already running as root; execution fails if it is unavailable.",
        );
    }
}

proof fn lemma_concat_ends(parts: Seq<Seq<char>>, last: Seq<char>)
    ensures
        concat(parts.push(last)) == concat(parts) + last,
{
    assert(parts.push(last).drop_last() =~= parts);
}

proof fn lemma_concat_pair(a: Seq<char>, b: Seq<char>)
    ensures
        concat(seq![a, b]) == a + b,
{
    let none: Seq<Seq<char>> = seq![];
    lemma_concat_ends(none, a);
    assert(concat(none) + a =~= a);
    assert(none.push(a) =~= seq![a]);
    lemma_concat_ends(seq![a], b);
    assert(seq![a].push(b) =~= seq![a, b]);
}

proof fn lemma_concat_four(a: Seq<char>, b: Seq<char>, c: Seq<char>, d: Seq<char>)
    ensures
        concat(seq![a, b, c, d]) == a + b + c + d,
{
    lemma_concat_pair(a, b);
    lemma_concat_ends(seq![a, b], c);
    assert(seq![a, b].push(c) =~= seq![a, b, c]);
    lemma_concat_ends(seq![a, b, c], d);
    assert(seq![a, b, c].push(d) =~= seq![a, b, c, d]);
}

proof fn lemma_concat_eight(
    a: Seq<char>,
    b: Seq<char>,
    c: Seq<char>,
    d: Seq<char>,
    e: Seq<char>,
    f: Seq<char>,
    g: Seq<char>,
    h: Seq<char>,
)
    ensures
        concat(seq![a, b, c, d, e, f, g, h]) == a + b + c + d + e + f + g + h,
{
    lemma_concat_four(a, b, c, d);
    lemma_concat_ends(seq![a, b, c, d], e);
    assert(seq![a, b, c, d].push(e) =~= seq![a, b, c, d, e]);
    lemma_concat_ends(seq![a, b, c, d, e], f);
    assert(seq![a, b, c, d, e].push(f) =~= seq![a, b, c, d, e, f]);
    lemma_concat_ends(seq![a, b, c, d, e, f], g);
    assert(seq![a, b, c, d, e, f].push(g) =~= seq![a, b, c, d, e, f, g]);
    lemma_concat_ends(seq![a, b, c, d, e, f, g], h);
    assert(seq![a, b, c, d, e, f, g].push(h) =~= seq![a, b, c, d, e, f, g, h]);
}

/// A foreign text is shown up to its five hundredth character, with an ellipsis for the
/// rest.
pub proof fn law_long_texts_are_cut(value: Seq<char>)
    ensures
        value.len() <= 500 ==> brief(value) == escape_controls(value),
        value.len() > 500 ==> brief(value) == escape_controls(value.take(500)).push('…'),
        shown(value, None) == escape_controls(value),
{
}

/// The line of a candidate tells its manager, package, version and score, says so if it is
/// unverified, and tells the instance and the source.
pub proof fn law_candidate_is_told(c: CandidateView)
    ensures
        candidate_line(c) == manager_name(c.manager) + " "@ + pad_right(brief(c.package), 28)
            + " "@ + pad_right(
            if c.version is Some {
                brief(c.version->0)
            } else {
                brief("version ?"@)
            },
            14,
        ) + " score="@ + decimal(c.score as nat) + (if c.verified {
            ""@
        } else {
            " unverified"@
        }) + " @ "@ + brief(c.manager_instance_id) + " ["@ + brief(c.source) + "]"@,
{
    let a = manager_name(c.manager);
    let p = pad_right(brief(c.package), 28);
    let v = pad_right(brief(shown_version(c.version)), 14);
    let s = decimal(c.score as nat);
    let m = verified_mark(c.verified);
    let first = seq![a, " "@, p, " "@, v, " score="@, s, m];
    lemma_concat_eight(a, " "@, p, " "@, v, " score="@, s, m);
    let second = first.push(" @ "@);
    let third = second.push(brief(c.manager_instance_id));
    let fourth = third.push(" ["@);
    let fifth = fourth.push(brief(c.source));
    lemma_concat_ends(first, " @ "@);
    lemma_concat_ends(second, brief(c.manager_instance_id));
    lemma_concat_ends(third, " ["@);
    lemma_concat_ends(fourth, brief(c.source));
    lemma_concat_ends(fifth, "]"@);
    assert(fifth.push("]"@) =~= seq![
        a,
        " "@,
        p,
        " "@,
        v,
        " score="@,
        s,
        m,
        " @ "@,
        brief(c.manager_instance_id),
        " ["@,
        brief(c.source),
        "]"@,
    ]);
}

/// Under a query stand the candidates for it, in their order, each with its description
/// below it; of another query, none.
pub proof fn law_candidates_stand_under_their_query(
    candidates: Seq<CandidateView>,
    more: CandidateView,
    query: Seq<char>,
)
    ensures
        match_lines(Seq::empty(), query).len() == 0,
        more.query != query ==> match_lines(candidates.push(more), query) == match_lines(
            candidates,
            query,
        ),
        more.query == query && more.description is None ==> match_lines(
            candidates.push(more),
            query,
        ) == match_lines(candidates, query).push("  "@ + candidate_line(more)),
        more.query == query && more.description is Some ==> match_lines(
            candidates.push(more),
            query,
        ) == match_lines(candidates, query).push("  "@ + candidate_line(more)).push(
            "      "@ + brief(more.description->0),
        ),
        (forall|i: int| 0 <= i < candidates.len() ==> (#[trigger] candidates[i]).query != query)
            <==> match_lines(candidates, query).len() == 0,
{
    assert(candidates.push(more).drop_last() =~= candidates);
    lemma_no_match_lines(candidates, query);
}

proof fn lemma_no_match_lines(candidates: Seq<CandidateView>, query: Seq<char>)
    ensures
        (forall|i: int| 0 <= i < candidates.len() ==> (#[trigger] candidates[i]).query != query)
            <==> match_lines(candidates, query).len() == 0,
    decreases candidates.len(),
{
    if candidates.len() > 0 {
        let rest = candidates.drop_last();
        lemma_no_match_lines(rest, query);
        if match_lines(candidates, query).len() == 0 {
            assert forall|i: int| 0 <= i < candidates.len() implies (#[trigger] candidates[i]).query
                != query by {
                if i < rest.len() {
                    assert(rest[i] == candidates[i]);
                }
            }
        }
        if forall|i: int|
            0 <= i < candidates.len() ==> (#[trigger] candidates[i]).query != query {
            assert forall|i: int| 0 <= i < rest.len() implies (#[trigger] rest[i]).query
                != query by {
                assert(rest[i] == candidates[i]);
            }
            assert(candidates[candidates.len() - 1].query != query);
        }
    }
}

/// Queries are shown in their order, each with its candidates under it, or with the word
/// that there are none.
pub proof fn law_queries_are_shown_in_order(
    queries: Seq<Seq<char>>,
    more: Seq<char>,
    candidates: Seq<CandidateView>,
)
    ensures
        queries_lines(Seq::empty(), candidates).len() == 0,
        match_lines(candidates, more).len() > 0 ==> queries_lines(queries.push(more), candidates)
            == queries_lines(queries, candidates).push("\n"@ + brief(more) + ":"@) + match_lines(
            candidates,
            more,
        ),
        match_lines(candidates, more).len() == 0 ==> queries_lines(queries.push(more), candidates)
            == queries_lines(queries, candidates).push("\n"@ + brief(more) + ":"@).push(
            "  (no matches)"@,
        ),
{
    assert(queries.push(more).drop_last() =~= queries);
    let before = queries_lines(queries, candidates);
    let found = match_lines(candidates, more);
    let head = "\n"@ + brief(more) + ":"@;
    assert(before + (seq![head] + found) =~= before.push(head) + found);
    assert(before + (seq![head] + seq!["  (no matches)"@]) =~= before.push(head).push(
        "  (no matches)"@,
    ));
}

/// Every line of a text ends with a line break.
pub proof fn law_lines_end(list: Seq<Seq<char>>, more: Seq<char>)
    ensures
        text_of_lines(Seq::empty()).len() == 0,
        text_of_lines(list.push(more)) == text_of_lines(list) + more + seq!['\n'],
{
    reveal_strlit("\n");
    assert("\n"@ =~= seq!['\n']);
    assert(list.push(more).drop_last() =~= list);
}

/// Warnings stand under a heading of their own, one in each line; without any, nothing does.
pub proof fn law_warnings_are_listed(warnings: Seq<Seq<char>>, i: int)
    ensures
        warnings.len() == 0 ==> warning_lines(warnings).len() == 0,
        warnings.len() > 0 ==> warning_lines(warnings).len() == warnings.len() + 1
            && warning_lines(warnings)[0] == "\nWarnings:"@,
        0 <= i < warnings.len() ==> warning_lines(warnings)[i + 1] == "  - "@ + brief(warnings[i]),
{
}

/// The line of an instance tells its manager, executable, version and id.
pub proof fn law_instance_is_told(instance: InstanceView)
    ensures
        instance_line(instance) == "  "@ + manager_name(instance.kind) + " "@ + pad_right(
            brief(path_text(instance.executable)),
            36,
        ) + " "@ + brief(instance.version) + " ["@ + brief(instance.id) + "]"@,
{
    let a = manager_name(instance.kind);
    let e = pad_right(brief(path_text(instance.executable)), 36);
    let v = brief(instance.version);
    let d = brief(instance.id);
    lemma_concat_eight("  "@, a, " "@, e, " "@, v, " ["@, d);
    let parts = seq!["  "@, a, " "@, e, " "@, v, " ["@, d];
    lemma_concat_ends(parts, "]"@);
    assert(parts.push("]"@) =~= seq!["  "@, a, " "@, e, " "@, v, " ["@, d, "]"@]);
}

/// The line of a target tells its id and label, and says so if it is yet to be created.
pub proof fn law_target_is_told(target: TargetView)
    ensures
        target_line(target) == "  "@ + pad_right(brief(target.id), 36) + " "@ + brief(target.label)
            + if target.exists {
            ""@
        } else {
            " (new)"@
        },
{
    let i = pad_right(brief(target.id), 36);
    let l = brief(target.label);
    let e = if target.exists {
        ""@
    } else {
        " (new)"@
    };
    lemma_concat_four("  "@, i, " "@, l);
    lemma_concat_ends(seq!["  "@, i, " "@, l], e);
    assert(seq!["  "@, i, " "@, l].push(e) =~= seq!["  "@, i, " "@, l, e]);
}

/// The line of a selection tells the query, what was selected for it, and where it goes.
pub proof fn law_selection_is_told(selection: SelectionView)
    ensures
        selection_line(selection) == "  "@ + brief(selection.query) + " -> "@ + manager_name(
            selection.candidate.manager,
        ) + ":"@ + brief(selection.candidate.package) + " -> "@ + brief(selection.target.id),
{
    lemma_concat_eight(
        "  "@,
        brief(selection.query),
        " -> "@,
        manager_name(selection.candidate.manager),
        ":"@,
        brief(selection.candidate.package),
        " -> "@,
        brief(selection.target.id),
    );
}

/// The report on a machine tells the working directory first, then the root of the project
/// and that of the workspace where they are known, the markers that were found, every
/// manager, and every target.
pub proof fn law_report_tells_all(
    context: ContextView,
    instances: Seq<InstanceView>,
    i: int,
    k: int,
)
    ensures
        ({
            let lines = doctor_lines(context, instances);
            &&& lines[0] == "Project: "@ + brief(path_text(context.cwd))
            &&& context.project_root is Some ==> lines[1] == "Project root: "@ + brief(
                path_text(context.project_root->0),
            )
            &&& context.workspace_root is Some && !option_path_same(
                context.workspace_root,
                context.project_root,
            ) ==> lines.contains("Workspace root: "@ + brief(path_text(context.workspace_root->0)))
            &&& context.markers.len() > 0 ==> lines.contains(
                "Markers: "@ + brief(join(context.markers, ", "@)),
            )
            &&& lines.contains("\nManagers:"@)
            &&& lines.contains("\nTargets:"@)
            &&& instances.len() == 0 ==> lines.contains("  (none found)"@)
            &&& 0 <= i < instances.len() ==> lines[lines.len() - context.targets.len() - 1
                - instances.len() + i] == instance_line(instances[i])
            &&& 0 <= k < context.targets.len() ==> lines[lines.len() - context.targets.len() + k]
                == target_line(context.targets[k])
        }),
{
    let lines = doctor_lines(context, instances);
    let head = project_lines(context);
    let managers = if instances.len() == 0 {
        seq!["  (none found)"@]
    } else {
        instances.map_values(|instance: InstanceView| instance_line(instance))
    };
    let h = head.len() as int;
    let m = managers.len() as int;
    let t = context.targets.len() as int;
    assert(lines.len() == h + 1 + m + 1 + t);
    assert forall|j: int| 0 <= j < h implies #[trigger] lines[j] == head[j] by {}
    assert(lines[h] == "\nManagers:"@);
    assert(lines[h + 1 + m] == "\nTargets:"@);
    if instances.len() == 0 {
        assert(lines[h + 1] == managers[0]);
    }
    if 0 <= i < instances.len() {
        assert(lines[h + 1 + i] == managers[i]);
    }
    if context.markers.len() > 0 {
        let line = "Markers: "@ + brief(join(context.markers, ", "@));
        assert(head[h - 1] == line);
        assert(lines[h - 1] == line);
    }
    if context.workspace_root is Some && !option_path_same(
        context.workspace_root,
        context.project_root,
    ) {
        let line = "Workspace root: "@ + brief(path_text(context.workspace_root->0));
        let w: int = if context.project_root is Some {
            2
        } else {
            1
        };
        assert(head[w] == line);
        assert(lines[w] == line);
    }
}

/// A step is told with its number, its whole command, its label, the directory that it runs
/// in, and at the end the path that must not be there and the privileges that it needs.
pub proof fn law_step_is_told(step: CommandView, index: nat, inherited: PathView)
    ensures
        ({
            let lines = step_lines(step, index, inherited);
            let n = lines.len();
            &&& n >= 7
            &&& lines[0] == "  "@ + decimal(index + 1) + ". "@ + escape_controls(
                shown_command(step),
            )
            &&& lines[1] == "     Label: "@ + escape_controls(step.label)
            &&& step.cwd is Some ==> lines[2] == "     Working directory ("@ + "explicit"@
                + "): "@ + escape_controls(path_text(step.cwd->0))
            &&& step.cwd is None ==> lines[2] == "     Working directory ("@ + "inherited"@
                + "): "@ + escape_controls(path_text(inherited))
            &&& step.must_not_exist is Some ==> lines[n - 2]
                == "     Plan-wide creation/overwrite guard: before any command, abort the entire plan if this filesystem entry exists, including as a broken symlink (and check again before this step): "@
                + escape_controls(path_text(step.must_not_exist->0))
            &&& step.must_not_exist is None ==> lines[n - 2]
                == "     Plan-wide creation/overwrite guard: (no must-not-exist path precondition for this step)"@
            &&& step.requires_admin ==> lines[n - 1] == "     Privileges: "@
                + "administrator/root elevation required"@
            &&& !step.requires_admin ==> lines[n - 1] == "     Privileges: "@
                + "user context required; no elevation requested (mate refuses this plan when run as root)"@
        }),
{
}

/// Every variable that a step sets is told with its value.
pub proof fn law_settings_are_told(step: CommandView, index: nat, inherited: PathView, i: int)
    requires
        0 <= i < step.env.len(),
    ensures
        step_lines(step, index, inherited).contains(
            "       - "@ + escape_controls(step.env[i].0) + "="@ + escape_controls(step.env[i].1),
        ),
{
    let lines = step_lines(step, index, inherited);
    let settings = setting_lines(step.env);
    let at = 3 + removal_lines(step.env_remove_prefixes).len() + 1 + i;
    assert(settings[i + 1] == "       - "@ + escape_controls(step.env[i].0) + "="@
        + escape_controls(step.env[i].1));
    assert(lines[at as int] == settings[i + 1]);
}

/// Every prefix of variables that a step does not inherit is told.
pub proof fn law_removals_are_told(step: CommandView, index: nat, inherited: PathView, i: int)
    requires
        0 <= i < step.env_remove_prefixes.len(),
    ensures
        step_lines(step, index, inherited).contains(
            "       - "@ + escape_controls(step.env_remove_prefixes[i]) + "*"@,
        ),
{
    let prefixes = step.env_remove_prefixes;
    let lines = step_lines(step, index, inherited);
    let removals = removal_lines(prefixes);
    let set = sorted_set(prefixes);
    lemma_sorted_set(prefixes);
    assert(prefixes.contains(prefixes[i]));
    assert(set.contains(prefixes[i]));
    let k = choose|k: int| 0 <= k < set.len() && set[k] == prefixes[i];
    assert(removals[k + 1] == "       - "@ + escape_controls(prefixes[i]) + "*"@);
    assert(lines[3 + (k + 1)] == removals[k + 1]);
}

/// Steps are told in their order, numbered from one.
pub proof fn law_steps_are_numbered(
    steps: Seq<CommandView>,
    more: CommandView,
    inherited: PathView,
)
    ensures
        steps_lines(Seq::empty(), inherited).len() == 0,
        steps_lines(steps.push(more), inherited) == steps_lines(steps, inherited) + step_lines(
            more,
            steps.len(),
            inherited,
        ),
{
    assert(steps.push(more).drop_last() =~= steps);
}

/// A plan begins with its selections and its steps under their headings, and ends with what
/// is promised of it.
pub proof fn law_plan_is_framed(plan: PlanView, inherited: PathView)
    ensures
        ({
            let lines = plan_lines(plan, inherited);
            let n = lines.len();
            let k = plan.selections.len() as int;
            &&& n >= k + 5
            &&& lines[0] == "\nInstallation plan:"@
            &&& lines[k + 1] == "\nCommands:"@
            &&& lines[n - 3]
                == "\nNo command above is executed until this complete plan is confirmed."@
            &&& lines[n - 2]
                == "All path guards are checked before step 1 and again before their step; steps run serially, stop on the first failure, and inherit terminal input/output."@
            &&& lines[n - 1]
                == "A step requiring admin privileges invokes trusted system sudo when mate is not already running as root; execution fails if it is unavailable."@
        }),
{
}

} // verus!
