//! Choosing what to install, and where.

use std::cmp::Ordering;

use vstd::prelude::*;

use crate::adapters::ManagerAdapter;
use crate::adapters::registry::{Adapter, registered, Registry};
use crate::context::{ContextView, ProjectContext};
use crate::error::{
    debug_quoted, debug_text, Error, ErrorKind, ErrorView, failure, outcome, outcome_list,
};
use crate::host::{Host, HostView};
use crate::matching::{compare_option, flag, flag_number, option_word};
use crate::model::{
    Candidate, CandidateView, InstanceView, manager_name, manager_rank, ManagerInstance, Selection,
    SelectionView, Target, TargetView,
};
use crate::order::{
    codes, compare_number, compare_text, key_leq, key_order, lemma_key_order_equal,
    lemma_key_order_flip, lemma_key_order_step, lemma_key_order_transitive, lemma_sorted_set,
    lemma_stable_sort_sorted, sort_by_view, sort_texts, sorted_set, stable_sort, word_order,
};
use crate::path::path_text;
use crate::planner::{find_instance, instance_with_id};
use crate::text::{
    cat2, cat4, concat, concat_texts, decimal, decimal_text, join, join_texts, list_of, lower, same,
    same_ignoring_case, same_option, views,
};
use crate::ui::{brief, candidate_label, candidate_line, terminal_safe};

verus! {

broadcast use crate::text::group_views;

// ---------------------------------------------------------------------------
// Order
// ---------------------------------------------------------------------------

/// Whether the candidate is named as its query asks, but for the case of letters.
pub open spec fn named_as_asked(c: CandidateView) -> bool {
    lower(c.package) == lower(c.query)
}

pub fn exact_package_match(query: &str, candidate: &Candidate) -> (r: bool)
    ensures
        r == (lower(candidate@.package) == lower(query@)),
{
    same_ignoring_case(candidate.package.as_str(), query)
}

/// What the candidates for one query are ranked by: the very name that was asked
/// for, the name but for the case of letters, the score from the highest down, and
/// then what tells equal matches apart.
pub open spec fn rank_key(c: CandidateView) -> Seq<Seq<int>> {
    seq![seq![0 - flag(c.package == c.query)]] + (seq![seq![0 - flag(named_as_asked(c))]] + (seq![
        seq![0 - c.score],
    ] + (seq![codes(c.manager_instance_id)] + (seq![seq![manager_rank(c.manager)]] + (seq![
        codes(c.package),
    ] + (seq![option_word(c.version)] + (seq![seq![0 - flag(c.verified)]] + (seq![codes(c.source)]
        + Seq::empty()))))))))
}

pub open spec fn rank_leq(a: CandidateView, b: CandidateView) -> bool {
    key_leq(rank_key(a), rank_key(b))
}

/// Opens up the comparison of two candidates, word by word.
proof fn lemma_rank_key(a: CandidateView, b: CandidateView)
    ensures
        key_order(rank_key(a), rank_key(b)) == {
            let named = word_order(
                seq![0 - flag(a.package == a.query)],
                seq![0 - flag(b.package == b.query)],
            );
            let alike = word_order(
                seq![0 - flag(named_as_asked(a))],
                seq![0 - flag(named_as_asked(b))],
            );
            let score = word_order(seq![0 - a.score], seq![0 - b.score]);
            let instance = word_order(codes(a.manager_instance_id), codes(b.manager_instance_id));
            let manager = word_order(seq![manager_rank(a.manager)], seq![manager_rank(b.manager)]);
            let package = word_order(codes(a.package), codes(b.package));
            let version = word_order(option_word(a.version), option_word(b.version));
            let verified = word_order(seq![0 - flag(a.verified)], seq![0 - flag(b.verified)]);
            if named != Ordering::Equal {
                named
            } else if alike != Ordering::Equal {
                alike
            } else if score != Ordering::Equal {
                score
            } else if instance != Ordering::Equal {
                instance
            } else if manager != Ordering::Equal {
                manager
            } else if package != Ordering::Equal {
                package
            } else if version != Ordering::Equal {
                version
            } else if verified != Ordering::Equal {
                verified
            } else {
                word_order(codes(a.source), codes(b.source))
            }
        },
{
    let end: Seq<Seq<int>> = Seq::empty();
    let a9 = seq![codes(a.source)] + end;
    let b9 = seq![codes(b.source)] + end;
    let a8 = seq![seq![0 - flag(a.verified)]] + a9;
    let b8 = seq![seq![0 - flag(b.verified)]] + b9;
    let a7 = seq![option_word(a.version)] + a8;
    let b7 = seq![option_word(b.version)] + b8;
    let a6 = seq![codes(a.package)] + a7;
    let b6 = seq![codes(b.package)] + b7;
    let a5 = seq![seq![manager_rank(a.manager)]] + a6;
    let b5 = seq![seq![manager_rank(b.manager)]] + b6;
    let a4 = seq![codes(a.manager_instance_id)] + a5;
    let b4 = seq![codes(b.manager_instance_id)] + b5;
    let a3 = seq![seq![0 - a.score]] + a4;
    let b3 = seq![seq![0 - b.score]] + b4;
    let a2 = seq![seq![0 - flag(named_as_asked(a))]] + a3;
    let b2 = seq![seq![0 - flag(named_as_asked(b))]] + b3;
    lemma_key_order_step(
        seq![0 - flag(a.package == a.query)],
        a2,
        seq![0 - flag(b.package == b.query)],
        b2,
    );
    lemma_key_order_step(
        seq![0 - flag(named_as_asked(a))],
        a3,
        seq![0 - flag(named_as_asked(b))],
        b3,
    );
    lemma_key_order_step(seq![0 - a.score], a4, seq![0 - b.score], b4);
    lemma_key_order_step(codes(a.manager_instance_id), a5, codes(b.manager_instance_id), b5);
    lemma_key_order_step(seq![manager_rank(a.manager)], a6, seq![manager_rank(b.manager)], b6);
    lemma_key_order_step(codes(a.package), a7, codes(b.package), b7);
    lemma_key_order_step(option_word(a.version), a8, option_word(b.version), b8);
    lemma_key_order_step(seq![0 - flag(a.verified)], a9, seq![0 - flag(b.verified)], b9);
    lemma_key_order_step(codes(a.source), end, codes(b.source), end);
}

fn compare_rank(a: &Candidate, b: &Candidate) -> (r: Ordering)
    ensures
        r == key_order(rank_key(a@), rank_key(b@)),
{
    proof {
        lemma_rank_key(a@, b@);
    }
    match compare_number(
        flag_number(same(b.package.as_str(), b.query.as_str())),
        flag_number(same(a.package.as_str(), a.query.as_str())),
    ) {
        Ordering::Equal => {},
        order => {
            return order;
        },
    }
    match compare_number(
        flag_number(exact_package_match(b.query.as_str(), b)),
        flag_number(exact_package_match(a.query.as_str(), a)),
    ) {
        Ordering::Equal => {},
        order => {
            return order;
        },
    }
    match compare_number(b.score, a.score) {
        Ordering::Equal => {},
        order => {
            return order;
        },
    }
    match compare_text(a.manager_instance_id.as_str(), b.manager_instance_id.as_str()) {
        Ordering::Equal => {},
        order => {
            return order;
        },
    }
    match compare_number(a.manager.rank(), b.manager.rank()) {
        Ordering::Equal => {},
        order => {
            return order;
        },
    }
    match compare_text(a.package.as_str(), b.package.as_str()) {
        Ordering::Equal => {},
        order => {
            return order;
        },
    }
    match compare_option(&a.version, &b.version) {
        Ordering::Equal => {},
        order => {
            return order;
        },
    }
    match compare_number(flag_number(b.verified), flag_number(a.verified)) {
        Ordering::Equal => {},
        order => {
            return order;
        },
    }
    compare_text(a.source.as_str(), b.source.as_str())
}

fn ranks_first(a: &Candidate, b: &Candidate) -> (r: bool)
    ensures
        r == rank_leq(a@, b@),
{
    match compare_rank(a, b) {
        Ordering::Greater => false,
        _ => true,
    }
}

/// The candidates in the order of their ranks.
pub open spec fn ranked(candidates: Seq<CandidateView>) -> Seq<CandidateView> {
    stable_sort(candidates, |a: CandidateView, b: CandidateView| rank_leq(a, b))
}

pub fn rank_candidates(candidates: Vec<Candidate>) -> (r: Vec<Candidate>)
    ensures
        views(r@) == ranked(views(candidates@)),
{
    let ghost leq = |a: CandidateView, b: CandidateView| rank_leq(a, b);
    sort_by_view(candidates, ranks_first, Ghost(leq))
}

/// Whether two candidates are one package of one instance in one version.
pub open spec fn one_package(a: CandidateView, b: CandidateView) -> bool {
    a.manager_instance_id == b.manager_instance_id && lower(a.package) == lower(b.package)
        && a.version == b.version
}

/// Whether `list` holds the package that `c` is.
pub open spec fn holds_package(list: Seq<CandidateView>, c: CandidateView) -> bool {
    exists|i: int| 0 <= i < list.len() && one_package(#[trigger] list[i], c)
}

/// The candidates without those that an earlier one stands for.
pub open spec fn deduplicated(candidates: Seq<CandidateView>) -> Seq<CandidateView>
    decreases candidates.len(),
{
    if candidates.len() == 0 {
        Seq::empty()
    } else {
        let rest = deduplicated(candidates.drop_last());
        if holds_package(rest, candidates.last()) {
            rest
        } else {
            rest.push(candidates.last())
        }
    }
}

fn has_package(list: &Vec<Candidate>, c: &Candidate) -> (r: bool)
    ensures
        r == holds_package(views(list@), c@),
{
    let n: usize = list.len();
    for i in 0..n
        invariant
            n == list@.len(),
            forall|j: int| 0 <= j < i ==> !one_package(#[trigger] views(list@)[j], c@),
    {
        assert(views(list@)[i as int] == list@[i as int]@);
        if same(list[i].manager_instance_id.as_str(), c.manager_instance_id.as_str())
            && same_ignoring_case(list[i].package.as_str(), c.package.as_str()) && same_option(
            &list[i].version,
            &c.version,
        ) {
            assert(one_package(views(list@)[i as int], c@));
            return true;
        }
    }
    false
}

pub fn deduplicate_logical_candidates(candidates: &Vec<Candidate>) -> (r: Vec<Candidate>)
    ensures
        views(r@) == deduplicated(views(candidates@)),
{
    let ghost all = views(candidates@);
    let mut r: Vec<Candidate> = Vec::new();
    let n: usize = candidates.len();
    assert(views(r@) =~= deduplicated(all.take(0)));
    for i in 0..n
        invariant
            n == candidates@.len(),
            all == views(candidates@),
            views(r@) == deduplicated(all.take(i as int)),
    {
        proof {
            assert(all.take(i + 1).drop_last() =~= all.take(i as int));
            assert(all.take(i + 1).last() == candidates@[i as int]@);
        }
        if !has_package(&r, &candidates[i]) {
            r.push(candidates[i].clone());
        }
    }
    assert(all.take(n as int) =~= all);
    r
}

// ---------------------------------------------------------------------------
// Unattended choice
// ---------------------------------------------------------------------------

/// The ids of the instances that the candidates belong to, each once, in order.
pub open spec fn instance_ids(options: Seq<CandidateView>) -> Seq<Seq<char>> {
    sorted_set(options.map_values(|c: CandidateView| c.manager_instance_id))
}

/// Whether a candidate matches as well as the best one.
pub open spec fn ties(c: CandidateView, best: CandidateView, query: Seq<char>) -> bool {
    (lower(c.package) == lower(query)) == (lower(best.package) == lower(query)) && c.score
        == best.score
}

/// How many candidates at the front match as well as the best one.
pub open spec fn tied_count(options: Seq<CandidateView>, best: CandidateView, query: Seq<char>) -> nat
    decreases options.len(),
{
    if options.len() == 0 || !ties(options[0], best, query) {
        0
    } else {
        1 + tied_count(options.drop_first(), best, query)
    }
}

pub open spec fn several_instances(query: Seq<char>, ids: Seq<Seq<char>>) -> ErrorView {
    failure(
        ErrorKind::SeveralInstances,
        debug_text(query) + " matched candidates from multiple manager instances ("@ + join(
            ids.map_values(|id: Seq<char>| brief(id)),
            ", "@,
        ) + "); pass --instance with one of these ids or run interactively"@,
    )
}

pub open spec fn ambiguous(query: Seq<char>, tied: Seq<CandidateView>) -> ErrorView {
    failure(
        ErrorKind::Ambiguous,
        concat(
            seq![
                debug_text(query),
                " is ambiguous within manager instance "@,
                brief(tied[0].manager_instance_id),
                ": "@,
                decimal(tied.len()),
                " candidates share the best match (score "@,
                decimal(tied[0].score as nat),
                "): "@,
                join(tied.map_values(|c: CandidateView| brief(c.package)), ", "@),
                "; refine the package query or run interactively"@,
            ],
        ),
    )
}

/// The one candidate that is best, if all are of one instance.
pub open spec fn unattended_choice(query: Seq<char>, options: Seq<CandidateView>) -> Result<
    CandidateView,
    ErrorView,
> {
    let ids = instance_ids(options);
    if ids.len() > 1 {
        Err(several_instances(query, ids))
    } else if options.len() == 0 {
        Err(failure(ErrorKind::NoCandidate, "no candidate was found for "@ + debug_text(query)))
    } else {
        let tied = tied_count(options, options[0], query);
        if tied > 1 {
            Err(ambiguous(query, options.take(tied as int)))
        } else {
            Ok(options[0])
        }
    }
}

proof fn lemma_tied_count(options: Seq<CandidateView>, best: CandidateView, query: Seq<char>)
    ensures
        tied_count(options, best, query) <= options.len(),
        forall|i: int|
            0 <= i < tied_count(options, best, query) ==> ties(#[trigger] options[i], best, query),
    decreases options.len(),
{
    if options.len() > 0 && ties(options[0], best, query) {
        let rest = options.drop_first();
        lemma_tied_count(rest, best, query);
        assert forall|i: int| 0 <= i < tied_count(options, best, query) implies ties(
            #[trigger] options[i],
            best,
            query,
        ) by {
            if i > 0 {
                assert(rest[i - 1] == options[i]);
            }
        }
    }
}

fn count_tied(options: &Vec<Candidate>, query: &str) -> (r: usize)
    requires
        options@.len() > 0,
    ensures
        r == tied_count(views(options@), views(options@)[0], query@),
        r <= options@.len(),
{
    let ghost all = views(options@);
    let best_is_exact = exact_package_match(query, &options[0]);
    let n: usize = options.len();
    let mut i: usize = 0;
    assert(all.skip(0) =~= all);
    while i < n
        invariant
            n == options@.len(),
            n > 0,
            all == views(options@),
            i <= n,
            best_is_exact == (lower(all[0].package) == lower(query@)),
            tied_count(all, all[0], query@) == i + tied_count(all.skip(i as int), all[0], query@),
        decreases n - i,
    {
        assert(all.skip(i as int)[0] == options@[i as int]@);
        assert(all.skip(i as int).drop_first() =~= all.skip(i + 1));
        if exact_package_match(query, &options[i]) != best_is_exact || options[i].score
            != options[0].score {
            return i;
        }
        i = i + 1;
    }
    i
}

fn instance_ids_of(options: &Vec<Candidate>) -> (r: Vec<String>)
    ensures
        views(r@) == instance_ids(views(options@)),
{
    let ghost all = views(options@).map_values(|c: CandidateView| c.manager_instance_id);
    let mut ids: Vec<String> = Vec::new();
    let n: usize = options.len();
    assert(views(ids@) =~= all.take(0));
    for i in 0..n
        invariant
            n == options@.len(),
            all == views(options@).map_values(|c: CandidateView| c.manager_instance_id),
            views(ids@) == all.take(i as int),
    {
        ids.push(options[i].manager_instance_id.clone());
        assert(all[i as int] == options@[i as int]@.manager_instance_id);
        assert(views(ids@) =~= all.take(i + 1));
    }
    assert(all.take(n as int) =~= all);
    sort_texts(&ids)
}

fn make_several_instances(query: &str, ids: &Vec<String>) -> (r: Error)
    ensures
        r@ == several_instances(query@, views(ids@)),
{
    let ghost all = views(ids@).map_values(|id: Seq<char>| brief(id));
    let mut shown: Vec<String> = Vec::new();
    let n: usize = ids.len();
    assert(views(shown@) =~= all.take(0));
    for i in 0..n
        invariant
            n == ids@.len(),
            all == views(ids@).map_values(|id: Seq<char>| brief(id)),
            views(shown@) == all.take(i as int),
    {
        shown.push(terminal_safe(ids[i].as_str()));
        assert(all[i as int] == brief(ids@[i as int]@));
        assert(views(shown@) =~= all.take(i + 1));
    }
    assert(all.take(n as int) =~= all);
    Error::new(
        ErrorKind::SeveralInstances,
        cat4(
            debug_quoted(query).as_str(),
            " matched candidates from multiple manager instances (",
            join_texts(&shown, ", ").as_str(),
            "); pass --instance with one of these ids or run interactively",
        ).as_str(),
    )
}

fn make_ambiguous(query: &str, options: &Vec<Candidate>, tied: usize) -> (r: Error)
    requires
        0 < tied <= options@.len(),
    ensures
        r@ == ambiguous(query@, views(options@).take(tied as int)),
{
    let ghost list = views(options@).take(tied as int);
    let ghost all = list.map_values(|c: CandidateView| brief(c.package));
    let mut shown: Vec<String> = Vec::new();
    assert(views(shown@) =~= all.take(0));
    for i in 0..tied
        invariant
            tied <= options@.len(),
            list == views(options@).take(tied as int),
            all == list.map_values(|c: CandidateView| brief(c.package)),
            views(shown@) == all.take(i as int),
    {
        shown.push(terminal_safe(options[i].package.as_str()));
        assert(list[i as int] == options@[i as int]@);
        assert(all[i as int] == brief(options@[i as int]@.package));
        assert(views(shown@) =~= all.take(i + 1));
    }
    assert(all.take(tied as int) =~= all);
    assert(list[0] == options@[0]@);
    let quoted = debug_quoted(query);
    let instance = terminal_safe(options[0].manager_instance_id.as_str());
    let count = decimal_text(tied);
    let score = decimal_text(options[0].score as usize);
    let packages = join_texts(&shown, ", ");
    let parts = list_of(
        &[
            quoted.as_str(),
            " is ambiguous within manager instance ",
            instance.as_str(),
            ": ",
            count.as_str(),
            " candidates share the best match (score ",
            score.as_str(),
            "): ",
            packages.as_str(),
            "; refine the package query or run interactively",
        ],
    );
    assert(views(parts@) =~= seq![
        quoted@,
        " is ambiguous within manager instance "@,
        instance@,
        ": "@,
        count@,
        " candidates share the best match (score "@,
        score@,
        "): "@,
        packages@,
        "; refine the package query or run interactively"@,
    ]);
    Error::new(ErrorKind::Ambiguous, concat_texts(&parts).as_str())
}

pub fn choose_unattended_candidate(query: &str, options: &Vec<Candidate>) -> (r: Result<
    Candidate,
    Error,
>)
    ensures
        outcome(r) == unattended_choice(query@, views(options@)),
{
    let ids = instance_ids_of(options);
    assert(views(ids@).len() == ids@.len());
    if ids.len() > 1 {
        return Err(make_several_instances(query, &ids));
    }
    assert(views(options@).len() == options@.len());
    if options.len() == 0 {
        return Err(
            Error::new(
                ErrorKind::NoCandidate,
                cat2("no candidate was found for ", debug_quoted(query).as_str()).as_str(),
            ),
        );
    }
    let tied = count_tied(options, query);
    if tied > 1 {
        return Err(make_ambiguous(query, options, tied));
    }
    Ok(options[0].clone())
}

// ---------------------------------------------------------------------------
// Targets
// ---------------------------------------------------------------------------

/// Whether a target is the one that the user named, by its id or its path.
pub open spec fn is_requested(target: TargetView, requested: Seq<char>) -> bool {
    target.id == requested || match target.path {
        Some(path) => path_text(path) == requested,
        None => false,
    }
}

pub fn target_matches(target: &Target, requested: &str) -> (r: bool)
    ensures
        r == is_requested(target@, requested@),
{
    if same(target.id.as_str(), requested) {
        return true;
    }
    match &target.path {
        Some(path) => same(path.text().as_str(), requested),
        None => false,
    }
}

/// The first of `targets` that the user named.
pub open spec fn requested_target(targets: Seq<TargetView>, requested: Seq<char>) -> Option<
    TargetView,
>
    decreases targets.len(),
{
    if targets.len() == 0 {
        None
    } else if is_requested(targets[0], requested) {
        Some(targets[0])
    } else {
        requested_target(targets.drop_first(), requested)
    }
}

fn find_target(targets: &Vec<Target>, requested: &str) -> (r: Option<usize>)
    ensures
        match r {
            Some(i) => i < targets@.len() && requested_target(views(targets@), requested@) == Some(
                targets@[i as int]@,
            ),
            None => requested_target(views(targets@), requested@) is None,
        },
{
    let ghost all = views(targets@);
    let n: usize = targets.len();
    let mut i: usize = 0;
    assert(all.skip(0) =~= all);
    while i < n
        invariant
            n == targets@.len(),
            all == views(targets@),
            i <= n,
            requested_target(all, requested@) == requested_target(all.skip(i as int), requested@),
        decreases n - i,
    {
        assert(all.skip(i as int)[0] == targets@[i as int]@);
        assert(all.skip(i as int).drop_first() =~= all.skip(i + 1));
        if target_matches(&targets[i], requested) {
            return Some(i);
        }
        i = i + 1;
    }
    None
}

// ---------------------------------------------------------------------------
// Questions
// ---------------------------------------------------------------------------

/// A question with the answers that the user may choose from.
#[derive(Debug)]
pub struct Prompt {
    pub text: String,
    pub labels: Vec<String>,
}

#[verifier::ext_equal]
pub struct PromptView {
    pub text: Seq<char>,
    pub labels: Seq<Seq<char>>,
}

impl View for Prompt {
    type V = PromptView;

    open spec fn view(&self) -> PromptView {
        PromptView { text: self.text@, labels: views(self.labels@) }
    }
}

/// What was chosen, with the number of answers that have been used up, or a
/// question that is still open.
#[derive(Debug)]
pub enum Pick<T> {
    Chosen(T, usize),
    Ask(Prompt),
}

pub enum PickView<T> {
    Chosen(T, nat),
    Ask(PromptView),
}

/// The view of a choice.
pub open spec fn picked<T: View>(r: Result<Pick<T>, Error>) -> Result<PickView<T::V>, ErrorView> {
    match r {
        Ok(Pick::Chosen(t, next)) => Ok(PickView::Chosen(t@, next as nat)),
        Ok(Pick::Ask(prompt)) => Ok(PickView::Ask(prompt@)),
        Err(e) => Err(e@),
    }
}

/// The answer to the next question, if it was given and is one of `count`.
pub open spec fn answer(answers: Seq<usize>, next: nat, count: nat) -> Option<nat> {
    if next < answers.len() && answers[next as int] < count {
        Some(answers[next as int] as nat)
    } else {
        None
    }
}

pub open spec fn candidate_prompt(query: Seq<char>, options: Seq<CandidateView>) -> PromptView {
    PromptView {
        text: "Select manager and package for "@ + query,
        labels: options.map_values(|c: CandidateView| candidate_line(c)),
    }
}

pub open spec fn target_choice_label(target: TargetView) -> Seq<char> {
    brief(target.label) + " ["@ + brief(target.id) + "]"@
}

pub open spec fn target_prompt(query: Seq<char>, targets: Seq<TargetView>) -> PromptView {
    PromptView {
        text: "Select installation target for "@ + query,
        labels: targets.map_values(|t: TargetView| target_choice_label(t)),
    }
}

fn ask_candidate(query: &str, options: &Vec<Candidate>) -> (r: Prompt)
    ensures
        r@ == candidate_prompt(query@, views(options@)),
{
    let ghost all = views(options@).map_values(|c: CandidateView| candidate_line(c));
    let mut labels: Vec<String> = Vec::new();
    let n: usize = options.len();
    assert(views(labels@) =~= all.take(0));
    for i in 0..n
        invariant
            n == options@.len(),
            all == views(options@).map_values(|c: CandidateView| candidate_line(c)),
            views(labels@) == all.take(i as int),
    {
        labels.push(candidate_label(&options[i]));
        assert(all[i as int] == candidate_line(options@[i as int]@));
        assert(views(labels@) =~= all.take(i + 1));
    }
    assert(all.take(n as int) =~= all);
    Prompt { text: cat2("Select manager and package for ", query), labels }
}

fn ask_target(query: &str, targets: &Vec<Target>) -> (r: Prompt)
    ensures
        r@ == target_prompt(query@, views(targets@)),
{
    let ghost all = views(targets@).map_values(|t: TargetView| target_choice_label(t));
    let mut labels: Vec<String> = Vec::new();
    let n: usize = targets.len();
    assert(views(labels@) =~= all.take(0));
    for i in 0..n
        invariant
            n == targets@.len(),
            all == views(targets@).map_values(|t: TargetView| target_choice_label(t)),
            views(labels@) == all.take(i as int),
    {
        labels.push(
            cat4(
                terminal_safe(targets[i].label.as_str()).as_str(),
                " [",
                terminal_safe(targets[i].id.as_str()).as_str(),
                "]",
            ),
        );
        assert(all[i as int] == target_choice_label(targets@[i as int]@));
        assert(views(labels@) =~= all.take(i + 1));
    }
    assert(all.take(n as int) =~= all);
    Prompt { text: cat2("Select installation target for ", query), labels }
}

/// The view of an optional text.
pub open spec fn optional(o: Option<&str>) -> Option<Seq<char>> {
    match o {
        Some(s) => Some(s@),
        None => None,
    }
}

pub open spec fn target_choice(
    query: Seq<char>,
    targets: Seq<TargetView>,
    requested: Option<Seq<char>>,
    prompts: bool,
    answers: Seq<usize>,
    next: nat,
) -> Result<PickView<TargetView>, ErrorView> {
    match requested {
        Some(requested) => match requested_target(targets, requested) {
            Some(target) => Ok(PickView::Chosen(target, next)),
            None => Err(
                failure(
                    ErrorKind::IncompatibleTarget,
                    "target "@ + debug_text(requested) + " is not compatible with "@ + debug_text(
                        query,
                    ),
                ),
            ),
        },
        None => if prompts {
            match answer(answers, next, targets.len()) {
                Some(i) => Ok(PickView::Chosen(targets[i as int], next + 1)),
                None => Ok(PickView::Ask(target_prompt(query, targets))),
            }
        } else if targets.len() == 1 {
            Ok(PickView::Chosen(targets[0], next))
        } else {
            Err(
                failure(
                    ErrorKind::SeveralTargets,
                    debug_text(query) + " has "@ + decimal(targets.len())
                        + " compatible targets; pass --target or run interactively"@,
                ),
            )
        },
    }
}

pub fn choose_target(
    query: &str,
    targets: &Vec<Target>,
    target_override: Option<&str>,
    allow_prompts: bool,
    answers: &Vec<usize>,
    next: usize,
) -> (r: Result<Pick<Target>, Error>)
    ensures
        picked(r) == target_choice(
            query@,
            views(targets@),
            optional(target_override),
            allow_prompts,
            answers@,
            next as nat,
        ),
{
    assert(views(targets@).len() == targets@.len());
    if let Some(requested) = target_override {
        return match find_target(targets, requested) {
            Some(i) => Ok(Pick::Chosen(targets[i].clone(), next)),
            None => Err(
                Error::new(
                    ErrorKind::IncompatibleTarget,
                    cat4(
                        "target ",
                        debug_quoted(requested).as_str(),
                        " is not compatible with ",
                        debug_quoted(query).as_str(),
                    ).as_str(),
                ),
            ),
        };
    }
    if allow_prompts {
        if next < answers.len() && answers[next] < targets.len() {
            return Ok(Pick::Chosen(targets[answers[next]].clone(), next + 1));
        }
        return Ok(Pick::Ask(ask_target(query, targets)));
    }
    if targets.len() == 1 {
        return Ok(Pick::Chosen(targets[0].clone(), next));
    }
    Err(
        Error::new(
            ErrorKind::SeveralTargets,
            cat4(
                debug_quoted(query).as_str(),
                " has ",
                decimal_text(targets.len()).as_str(),
                " compatible targets; pass --target or run interactively",
            ).as_str(),
        ),
    )
}

pub open spec fn candidate_choice(
    query: Seq<char>,
    options: Seq<CandidateView>,
    prompts: bool,
    answers: Seq<usize>,
    next: nat,
) -> Result<PickView<CandidateView>, ErrorView> {
    if prompts {
        match answer(answers, next, options.len()) {
            Some(i) => Ok(PickView::Chosen(options[i as int], next + 1)),
            None => Ok(PickView::Ask(candidate_prompt(query, options))),
        }
    } else {
        match unattended_choice(query, options) {
            Ok(c) => Ok(PickView::Chosen(c, next)),
            Err(e) => Err(e),
        }
    }
}

fn choose_candidate(
    query: &str,
    options: &Vec<Candidate>,
    allow_prompts: bool,
    answers: &Vec<usize>,
    next: usize,
) -> (r: Result<Pick<Candidate>, Error>)
    ensures
        picked(r) == candidate_choice(
            query@,
            views(options@),
            allow_prompts,
            answers@,
            next as nat,
        ),
{
    assert(views(options@).len() == options@.len());
    if allow_prompts {
        if next < answers.len() && answers[next] < options.len() {
            return Ok(Pick::Chosen(options[answers[next]].clone(), next + 1));
        }
        return Ok(Pick::Ask(ask_candidate(query, options)));
    }
    match choose_unattended_candidate(query, options) {
        Ok(candidate) => Ok(Pick::Chosen(candidate, next)),
        Err(e) => Err(e),
    }
}

// ---------------------------------------------------------------------------
// Selections
// ---------------------------------------------------------------------------

/// What there is to choose from, and how.
pub struct SelectionRequest<'a> {
    pub registry: &'a Registry,
    pub host: &'a Host,
    pub context: &'a ProjectContext,
    pub instances: &'a Vec<ManagerInstance>,
    pub queries: &'a Vec<String>,
    pub candidates: &'a Vec<Candidate>,
    pub target_override: Option<&'a str>,
    pub instance_override: Option<&'a str>,
    pub allow_prompts: bool,
}

#[verifier::ext_equal]
pub struct RequestOptions {
    pub adapters: Seq<Adapter>,
    pub host: HostView,
    pub context: ContextView,
    pub instances: Seq<InstanceView>,
    pub queries: Seq<Seq<char>>,
    pub candidates: Seq<CandidateView>,
    pub target_override: Option<Seq<char>>,
    pub instance_override: Option<Seq<char>>,
    pub allow_prompts: bool,
}

impl<'a> View for SelectionRequest<'a> {
    type V = RequestOptions;

    open spec fn view(&self) -> RequestOptions {
        RequestOptions {
            adapters: self.registry@,
            host: self.host@,
            context: self.context@,
            instances: views(self.instances@),
            queries: views(self.queries@),
            candidates: views(self.candidates@),
            target_override: optional(self.target_override),
            instance_override: optional(self.instance_override),
            allow_prompts: self.allow_prompts,
        }
    }
}

/// Whether a candidate was found for this query by an instance that may be used.
pub open spec fn concerns(request: RequestOptions, query: Seq<char>, c: CandidateView) -> bool {
    c.query == query && match request.instance_override {
        Some(requested) => c.manager_instance_id == requested,
        None => true,
    }
}

/// Whether a candidate can be installed into the target that the user named, or
/// what is wrong with it.
pub open spec fn admitted(request: RequestOptions, c: CandidateView) -> Result<bool, ErrorView> {
    match find_instance(request.instances, c.manager_instance_id) {
        None => Err(
            failure(
                ErrorKind::UnknownInstance,
                "candidate "@ + brief(c.package) + " refers to unknown manager instance "@ + brief(
                    c.manager_instance_id,
                ),
            ),
        ),
        Some(instance) => if instance.kind != c.manager {
            Err(
                failure(
                    ErrorKind::ManagerMismatch,
                    concat(
                        seq![
                            "candidate "@,
                            brief(c.package),
                            " claims manager "@,
                            manager_name(c.manager),
                            " but belongs to "@,
                            brief(instance.id),
                        ],
                    ),
                ),
            )
        } else {
            match request.target_override {
                None => Ok(true),
                Some(requested) => match registered(request.adapters, instance.kind) {
                    Err(e) => Err(e),
                    Ok(adapter) => Ok(
                        requested_target(
                            adapter.targets(request.host, instance, request.context),
                            requested,
                        ) is Some,
                    ),
                },
            }
        },
    }
}

/// Those of `candidates` that may be installed for this query.
pub open spec fn admissible(
    request: RequestOptions,
    query: Seq<char>,
    candidates: Seq<CandidateView>,
) -> Result<Seq<CandidateView>, ErrorView>
    decreases candidates.len(),
{
    if candidates.len() == 0 {
        Ok(Seq::empty())
    } else {
        match admissible(request, query, candidates.drop_last()) {
            Err(e) => Err(e),
            Ok(list) => if !concerns(request, query, candidates.last()) {
                Ok(list)
            } else {
                match admitted(request, candidates.last()) {
                    Err(e) => Err(e),
                    Ok(true) => Ok(list.push(candidates.last())),
                    Ok(false) => Ok(list),
                }
            },
        }
    }
}

proof fn lemma_admissible_stops(
    request: RequestOptions,
    query: Seq<char>,
    candidates: Seq<CandidateView>,
    n: int,
)
    requires
        0 <= n <= candidates.len(),
        admissible(request, query, candidates.take(n)) is Err,
    ensures
        admissible(request, query, candidates) == admissible(request, query, candidates.take(n)),
    decreases candidates.len() - n,
{
    if n < candidates.len() {
        assert(candidates.take(n + 1).drop_last() =~= candidates.take(n));
        lemma_admissible_stops(request, query, candidates, n + 1);
    } else {
        assert(candidates.take(n) =~= candidates);
    }
}

fn check_candidate(request: &SelectionRequest, c: &Candidate) -> (r: Result<bool, Error>)
    ensures
        match r {
            Ok(b) => admitted(request@, c@) == Ok::<bool, ErrorView>(b),
            Err(e) => admitted(request@, c@) == Err::<bool, ErrorView>(e@),
        },
{
    let instance = match instance_with_id(request.instances, c.manager_instance_id.as_str()) {
        Some(instance) => instance,
        None => {
            return Err(
                Error::new(
                    ErrorKind::UnknownInstance,
                    cat4(
                        "candidate ",
                        terminal_safe(c.package.as_str()).as_str(),
                        " refers to unknown manager instance ",
                        terminal_safe(c.manager_instance_id.as_str()).as_str(),
                    ).as_str(),
                ),
            );
        },
    };
    if instance.kind != c.manager {
        let package = terminal_safe(c.package.as_str());
        let id = terminal_safe(instance.id.as_str());
        let parts = list_of(
            &[
                "candidate ",
                package.as_str(),
                " claims manager ",
                c.manager.name(),
                " but belongs to ",
                id.as_str(),
            ],
        );
        assert(views(parts@) =~= seq![
            "candidate "@,
            package@,
            " claims manager "@,
            manager_name(c@.manager),
            " but belongs to "@,
            id@,
        ]);
        return Err(Error::new(ErrorKind::ManagerMismatch, concat_texts(&parts).as_str()));
    }
    match request.target_override {
        None => Ok(true),
        Some(requested) => {
            let adapter = match request.registry.adapter(instance.kind) {
                Ok(adapter) => adapter,
                Err(e) => {
                    return Err(e);
                },
            };
            let targets = adapter.compatible_targets(request.host, instance, request.context);
            match find_target(&targets, requested) {
                Some(_) => Ok(true),
                None => Ok(false),
            }
        },
    }
}

fn admissible_candidates(request: &SelectionRequest, query: &str) -> (r: Result<
    Vec<Candidate>,
    Error,
>)
    ensures
        outcome_list(r) == admissible(request@, query@, request@.candidates),
{
    let candidates = request.candidates;
    let ghost all = views(candidates@);
    let mut list: Vec<Candidate> = Vec::new();
    let n: usize = candidates.len();
    assert(views(list@) =~= Seq::empty());
    for i in 0..n
        invariant
            n == candidates@.len(),
            all == views(candidates@),
            all == request@.candidates,
            admissible(request@, query@, all.take(i as int)) == Ok::<Seq<CandidateView>, ErrorView>(
                views(list@),
            ),
    {
        proof {
            assert(all.take(i + 1).drop_last() =~= all.take(i as int));
            assert(all.take(i + 1).last() == candidates@[i as int]@);
        }
        let by_instance = match request.instance_override {
            Some(requested) => same(candidates[i].manager_instance_id.as_str(), requested),
            None => true,
        };
        if same(candidates[i].query.as_str(), query) && by_instance {
            match check_candidate(request, &candidates[i]) {
                Err(e) => {
                    proof {
                        lemma_admissible_stops(request@, query@, all, i + 1);
                    }
                    return Err(e);
                },
                Ok(true) => {
                    list.push(candidates[i].clone());
                },
                Ok(false) => {},
            }
        }
    }
    assert(all.take(n as int) =~= all);
    Ok(list)
}

pub open spec fn no_candidate(query: Seq<char>) -> ErrorView {
    failure(
        ErrorKind::NoCandidate,
        "no candidate compatible with the requested manager and target was found for "@
            + debug_text(query),
    )
}

/// What is offered for one query.
pub open spec fn offered(request: RequestOptions, query: Seq<char>) -> Result<
    Seq<CandidateView>,
    ErrorView,
> {
    match admissible(request, query, request.candidates) {
        Err(e) => Err(e),
        Ok(list) => if list.len() == 0 {
            Err(no_candidate(query))
        } else {
            Ok(deduplicated(ranked(list)))
        },
    }
}

fn offer(request: &SelectionRequest, query: &str) -> (r: Result<Vec<Candidate>, Error>)
    ensures
        outcome_list(r) == offered(request@, query@),
{
    let list = match admissible_candidates(request, query) {
        Ok(list) => list,
        Err(e) => {
            return Err(e);
        },
    };
    assert(views(list@).len() == list@.len());
    if list.len() == 0 {
        return Err(
            Error::new(
                ErrorKind::NoCandidate,
                cat2(
                    "no candidate compatible with the requested manager and target was found for ",
                    debug_quoted(query).as_str(),
                ).as_str(),
            ),
        );
    }
    Ok(deduplicate_logical_candidates(&rank_candidates(list)))
}

/// Where a candidate can be installed.
pub open spec fn targets_of(request: RequestOptions, c: CandidateView) -> Result<
    Seq<TargetView>,
    ErrorView,
> {
    match find_instance(request.instances, c.manager_instance_id) {
        None => Err(failure(ErrorKind::InstanceMissing, "selected manager instance disappeared"@)),
        Some(instance) => match registered(request.adapters, instance.kind) {
            Err(e) => Err(e),
            Ok(adapter) => {
                let targets = adapter.targets(request.host, instance, request.context);
                if targets.len() == 0 {
                    Err(failure(ErrorKind::NoTarget, instance.id + " has no compatible target"@))
                } else {
                    Ok(targets)
                }
            },
        },
    }
}

fn find_targets(request: &SelectionRequest, c: &Candidate) -> (r: Result<Vec<Target>, Error>)
    ensures
        outcome_list(r) == targets_of(request@, c@),
{
    let instance = match instance_with_id(request.instances, c.manager_instance_id.as_str()) {
        Some(instance) => instance,
        None => {
            return Err(
                Error::new(ErrorKind::InstanceMissing, "selected manager instance disappeared"),
            );
        },
    };
    let adapter = match request.registry.adapter(instance.kind) {
        Ok(adapter) => adapter,
        Err(e) => {
            return Err(e);
        },
    };
    let targets = adapter.compatible_targets(request.host, instance, request.context);
    assert(views(targets@).len() == targets@.len());
    if targets.len() == 0 {
        return Err(
            Error::new(
                ErrorKind::NoTarget,
                cat2(instance.id.as_str(), " has no compatible target").as_str(),
            ),
        );
    }
    Ok(targets)
}

/// What is installed for one query, given the answers from the `next` on.
pub open spec fn one_selection(
    request: RequestOptions,
    query: Seq<char>,
    answers: Seq<usize>,
    next: nat,
) -> Result<PickView<SelectionView>, ErrorView> {
    match offered(request, query) {
        Err(e) => Err(e),
        Ok(options) => match candidate_choice(
            query,
            options,
            request.allow_prompts,
            answers,
            next,
        ) {
            Err(e) => Err(e),
            Ok(PickView::Ask(prompt)) => Ok(PickView::Ask(prompt)),
            Ok(PickView::Chosen(candidate, next)) => match targets_of(request, candidate) {
                Err(e) => Err(e),
                Ok(targets) => match target_choice(
                    query,
                    targets,
                    request.target_override,
                    request.allow_prompts,
                    answers,
                    next,
                ) {
                    Err(e) => Err(e),
                    Ok(PickView::Ask(prompt)) => Ok(PickView::Ask(prompt)),
                    Ok(PickView::Chosen(target, next)) => Ok(
                        PickView::Chosen(SelectionView { query, candidate, target }, next),
                    ),
                },
            },
        },
    }
}

fn select_one(request: &SelectionRequest, query: &str, answers: &Vec<usize>, next: usize) -> (r:
    Result<Pick<Selection>, Error>)
    ensures
        picked(r) == one_selection(request@, query@, answers@, next as nat),
{
    let options = match offer(request, query) {
        Ok(options) => options,
        Err(e) => {
            return Err(e);
        },
    };
    let (candidate, next) = match choose_candidate(
        query,
        &options,
        request.allow_prompts,
        answers,
        next,
    ) {
        Ok(Pick::Chosen(candidate, next)) => (candidate, next),
        Ok(Pick::Ask(prompt)) => {
            return Ok(Pick::Ask(prompt));
        },
        Err(e) => {
            return Err(e);
        },
    };
    let targets = match find_targets(request, &candidate) {
        Ok(targets) => targets,
        Err(e) => {
            return Err(e);
        },
    };
    match choose_target(
        query,
        &targets,
        request.target_override,
        request.allow_prompts,
        answers,
        next,
    ) {
        Ok(Pick::Chosen(target, next)) => Ok(
            Pick::Chosen(Selection { query: query.to_owned(), candidate, target }, next),
        ),
        Ok(Pick::Ask(prompt)) => Ok(Pick::Ask(prompt)),
        Err(e) => Err(e),
    }
}

/// What is installed for `queries`, or the first question that has no answer yet.
pub open spec fn selections(
    request: RequestOptions,
    queries: Seq<Seq<char>>,
    answers: Seq<usize>,
) -> Result<PickView<Seq<SelectionView>>, ErrorView>
    decreases queries.len(),
{
    if queries.len() == 0 {
        Ok(PickView::Chosen(Seq::empty(), 0))
    } else {
        match selections(request, queries.drop_last(), answers) {
            Err(e) => Err(e),
            Ok(PickView::Ask(prompt)) => Ok(PickView::Ask(prompt)),
            Ok(PickView::Chosen(list, next)) => match one_selection(
                request,
                queries.last(),
                answers,
                next,
            ) {
                Err(e) => Err(e),
                Ok(PickView::Ask(prompt)) => Ok(PickView::Ask(prompt)),
                Ok(PickView::Chosen(selection, next)) => Ok(
                    PickView::Chosen(list.push(selection), next),
                ),
            },
        }
    }
}

proof fn lemma_selections_stop(
    request: RequestOptions,
    queries: Seq<Seq<char>>,
    answers: Seq<usize>,
    n: int,
)
    requires
        0 <= n <= queries.len(),
        !(selections(request, queries.take(n), answers) matches Ok(PickView::Chosen(_, _))),
    ensures
        selections(request, queries, answers) == selections(request, queries.take(n), answers),
    decreases queries.len() - n,
{
    if n < queries.len() {
        assert(queries.take(n + 1).drop_last() =~= queries.take(n));
        lemma_selections_stop(request, queries, answers, n + 1);
    } else {
        assert(queries.take(n) =~= queries);
    }
}

/// All selections, or a question to put to the user.
#[derive(Debug)]
pub enum SelectionOutcome {
    Chosen(Vec<Selection>),
    Ask(Prompt),
}

/// Chooses a candidate and a target for each query. Where a question comes up that
/// `answers` has no answer to, it is handed back: put it to the user, add the index
/// of the answer to `answers`, and call again.
pub fn select_installations(request: SelectionRequest, answers: &Vec<usize>) -> (r: Result<
    SelectionOutcome,
    Error,
>)
    ensures
        match r {
            Ok(SelectionOutcome::Chosen(list)) => selections(
                request@,
                request@.queries,
                answers@,
            ) matches Ok(PickView::Chosen(all, _)) && all == views(list@),
            Ok(SelectionOutcome::Ask(prompt)) => selections(request@, request@.queries, answers@)
                == Ok::<PickView<Seq<SelectionView>>, ErrorView>(PickView::Ask(prompt@)),
            Err(e) => selections(request@, request@.queries, answers@) == Err::<
                PickView<Seq<SelectionView>>,
                ErrorView,
            >(e@),
        },
{
    let queries = request.queries;
    let ghost all = views(queries@);
    let ghost options = request@;
    let mut list: Vec<Selection> = Vec::new();
    let mut next: usize = 0;
    let n: usize = queries.len();
    assert(views(list@) =~= Seq::empty());
    for i in 0..n
        invariant
            n == queries@.len(),
            all == views(queries@),
            options == request@,
            all == options.queries,
            selections(options, all.take(i as int), answers@) == Ok::<
                PickView<Seq<SelectionView>>,
                ErrorView,
            >(PickView::Chosen(views(list@), next as nat)),
    {
        proof {
            assert(all.take(i + 1).drop_last() =~= all.take(i as int));
            assert(all.take(i + 1).last() == queries@[i as int]@);
        }
        match select_one(&request, queries[i].as_str(), answers, next) {
            Ok(Pick::Chosen(selection, used)) => {
                list.push(selection);
                next = used;
            },
            Ok(Pick::Ask(prompt)) => {
                proof {
                    lemma_selections_stop(options, all, answers@, i + 1);
                }
                return Ok(SelectionOutcome::Ask(prompt));
            },
            Err(e) => {
                proof {
                    lemma_selections_stop(options, all, answers@, i + 1);
                }
                return Err(e);
            },
        }
    }
    assert(all.take(n as int) =~= all);
    Ok(SelectionOutcome::Chosen(list))
}

// ---------------------------------------------------------------------------
// Laws
// ---------------------------------------------------------------------------

/// Ranks compare any two candidates, and consistently.
pub proof fn law_rank_order(a: CandidateView, b: CandidateView, c: CandidateView)
    ensures
        rank_leq(a, a),
        rank_leq(a, b) || rank_leq(b, a),
        rank_leq(a, b) && rank_leq(b, c) ==> rank_leq(a, c),
{
    lemma_key_order_equal(rank_key(a), rank_key(a));
    lemma_key_order_flip(rank_key(a), rank_key(b));
    if rank_leq(a, b) && rank_leq(b, c) {
        lemma_key_order_transitive(rank_key(a), rank_key(b), rank_key(c));
    }
}

/// Ranking puts every candidate in order and neither adds nor loses one.
pub proof fn law_ranking_keeps_candidates(candidates: Seq<CandidateView>)
    ensures
        ranked(candidates).to_multiset() == candidates.to_multiset(),
        ranked(candidates).len() == candidates.len(),
        forall|i: int, j: int|
            0 <= i < j < candidates.len() ==> rank_leq(
                #[trigger] ranked(candidates)[i],
                #[trigger] ranked(candidates)[j],
            ),
{
    let leq = |a: CandidateView, b: CandidateView| rank_leq(a, b);
    assert forall|a: CandidateView, b: CandidateView| #[trigger] leq(a, b) || leq(b, a) by {
        law_rank_order(a, b, b);
    }
    assert forall|a: CandidateView, b: CandidateView, c: CandidateView|
        #[trigger] leq(a, b) && #[trigger] leq(b, c) implies leq(a, c) by {
        law_rank_order(a, b, c);
    }
    lemma_stable_sort_sorted(candidates, leq);
    let s = ranked(candidates);
    assert forall|i: int, j: int| 0 <= i < j < candidates.len() implies rank_leq(
        #[trigger] s[i],
        #[trigger] s[j],
    ) by {
        assert(leq(s[i], s[j]));
    }
}

/// Whether the candidate at `i` is the first of its package.
pub open spec fn is_first(candidates: Seq<CandidateView>, i: int) -> bool {
    forall|j: int| 0 <= j < i ==> !one_package(#[trigger] candidates[j], candidates[i])
}

/// The first candidate of each package, in their order.
pub open spec fn first_of_each(candidates: Seq<CandidateView>) -> Seq<CandidateView>
    decreases candidates.len(),
{
    if candidates.len() == 0 {
        Seq::empty()
    } else if is_first(candidates, candidates.len() - 1) {
        first_of_each(candidates.drop_last()).push(candidates.last())
    } else {
        first_of_each(candidates.drop_last())
    }
}

/// Where each candidate is of another package, none is dropped.
proof fn lemma_nothing_dropped(candidates: Seq<CandidateView>)
    requires
        forall|i: int, j: int|
            0 <= i < j < candidates.len() ==> !one_package(
                #[trigger] candidates[i],
                #[trigger] candidates[j],
            ),
    ensures
        deduplicated(candidates) == candidates,
    decreases candidates.len(),
{
    if candidates.len() > 0 {
        let rest = candidates.drop_last();
        assert forall|i: int, j: int| 0 <= i < j < rest.len() implies !one_package(
            #[trigger] rest[i],
            #[trigger] rest[j],
        ) by {
            assert(rest[i] == candidates[i] && rest[j] == candidates[j]);
        }
        lemma_nothing_dropped(rest);
        if holds_package(rest, candidates.last()) {
            let k = choose|k: int|
                0 <= k < rest.len() && one_package(#[trigger] rest[k], candidates.last());
            assert(one_package(candidates[k], candidates[candidates.len() - 1]));
        }
        assert(rest.push(candidates.last()) =~= candidates);
    }
}

proof fn lemma_duplicates_dropped(candidates: Seq<CandidateView>)
    ensures
        forall|i: int|
            0 <= i < deduplicated(candidates).len() ==> candidates.contains(
                #[trigger] deduplicated(candidates)[i],
            ),
        forall|i: int|
            0 <= i < candidates.len() ==> holds_package(
                deduplicated(candidates),
                #[trigger] candidates[i],
            ),
        forall|i: int, j: int|
            0 <= i < j < deduplicated(candidates).len() ==> !one_package(
                #[trigger] deduplicated(candidates)[i],
                #[trigger] deduplicated(candidates)[j],
            ),
        candidates.len() > 0 ==> deduplicated(candidates).len() > 0 && deduplicated(candidates)[0]
            == candidates[0],
    decreases candidates.len(),
{
    if candidates.len() > 0 {
        let rest = candidates.drop_last();
        let last = candidates.last();
        let kept = deduplicated(rest);
        let all = deduplicated(candidates);
        lemma_duplicates_dropped(rest);
        assert forall|i: int| 0 <= i < all.len() implies candidates.contains(#[trigger] all[i]) by {
            if i < kept.len() {
                assert(all[i] == kept[i]);
                assert(rest.contains(kept[i]));
                let k = choose|k: int| 0 <= k < rest.len() && rest[k] == kept[i];
                assert(candidates[k] == all[i]);
            } else {
                assert(candidates[candidates.len() - 1] == all[i]);
            }
        }
        assert forall|i: int| 0 <= i < candidates.len() implies holds_package(
            all,
            #[trigger] candidates[i],
        ) by {
            if i < rest.len() {
                assert(holds_package(kept, rest[i]));
                let k = choose|k: int| 0 <= k < kept.len() && one_package(#[trigger] kept[k], rest[i]);
                assert(one_package(all[k], candidates[i]));
            } else if !holds_package(kept, last) {
                assert(one_package(all[kept.len() as int], candidates[i]));
            }
        }
        assert forall|i: int, j: int| 0 <= i < j < all.len() implies !one_package(
            #[trigger] all[i],
            #[trigger] all[j],
        ) by {
            assert(all[i] == kept[i]);
            if j < kept.len() {
                assert(all[j] == kept[j]);
            }
        }
    }
}

proof fn lemma_first_of_each(candidates: Seq<CandidateView>)
    ensures
        deduplicated(candidates) == first_of_each(candidates),
    decreases candidates.len(),
{
    if candidates.len() > 0 {
        let rest = candidates.drop_last();
        let last = candidates.last();
        let kept = deduplicated(rest);
        let n = candidates.len() - 1;
        lemma_duplicates_dropped(rest);
        lemma_first_of_each(rest);
        if holds_package(kept, last) {
            let k = choose|k: int| 0 <= k < kept.len() && one_package(#[trigger] kept[k], last);
            assert(rest.contains(kept[k]));
            let m = choose|m: int| 0 <= m < rest.len() && rest[m] == kept[k];
            assert(one_package(candidates[m], candidates[n]));
        } else {
            assert forall|j: int| 0 <= j < n implies !one_package(
                #[trigger] candidates[j],
                candidates[n],
            ) by {
                assert(holds_package(kept, rest[j]));
                let k = choose|k: int|
                    0 <= k < kept.len() && one_package(#[trigger] kept[k], rest[j]);
                if one_package(candidates[j], candidates[n]) {
                    assert(one_package(kept[k], last));
                }
            }
            assert(is_first(candidates, n));
        }
    }
}

/// A list without duplicates begins as the list does, holds nothing else, and has
/// each package of it once: the first candidate of each stays, in order. Nothing is
/// left to drop then.
pub proof fn law_duplicates_are_dropped(candidates: Seq<CandidateView>)
    ensures
        forall|i: int|
            0 <= i < deduplicated(candidates).len() ==> candidates.contains(
                #[trigger] deduplicated(candidates)[i],
            ),
        forall|i: int|
            0 <= i < candidates.len() ==> holds_package(
                deduplicated(candidates),
                #[trigger] candidates[i],
            ),
        forall|i: int, j: int|
            0 <= i < j < deduplicated(candidates).len() ==> !one_package(
                #[trigger] deduplicated(candidates)[i],
                #[trigger] deduplicated(candidates)[j],
            ),
        candidates.len() > 0 ==> deduplicated(candidates).len() > 0 && deduplicated(candidates)[0]
            == candidates[0],
        deduplicated(candidates) == first_of_each(candidates),
        deduplicated(deduplicated(candidates)) == deduplicated(candidates),
{
    lemma_duplicates_dropped(candidates);
    lemma_first_of_each(candidates);
    lemma_nothing_dropped(deduplicated(candidates));
}

/// What is admissible are candidates for the query, of the instance that the user
/// named if one was named, each checked.
pub proof fn law_admissible_candidates(
    request: RequestOptions,
    query: Seq<char>,
    candidates: Seq<CandidateView>,
)
    ensures
        admissible(request, query, candidates) matches Ok(list) ==> (forall|c: CandidateView|
            #[trigger] list.contains(c) <==> candidates.contains(c) && concerns(request, query, c)
                && admitted(request, c) == Ok::<bool, ErrorView>(true)),
    decreases candidates.len(),
{
    if candidates.len() > 0 && admissible(request, query, candidates) is Ok {
        let rest = candidates.drop_last();
        let last = candidates.last();
        law_admissible_candidates(request, query, rest);
        let before = admissible(request, query, rest)->Ok_0;
        let list = admissible(request, query, candidates)->Ok_0;
        assert forall|c: CandidateView|
            #[trigger] list.contains(c) <==> candidates.contains(c) && concerns(request, query, c)
                && admitted(request, c) == Ok::<bool, ErrorView>(true) by {
            if rest.contains(c) {
                let k = choose|k: int| 0 <= k < rest.len() && rest[k] == c;
                assert(candidates[k] == c);
            }
            if candidates.contains(c) && c != last {
                let k = choose|k: int| 0 <= k < candidates.len() && candidates[k] == c;
                assert(rest[k] == c);
            }
            assert(candidates[candidates.len() - 1] == last);
            if before.contains(c) {
                let k = choose|k: int| 0 <= k < before.len() && before[k] == c;
                assert(list[k] == c);
            }
            if list.contains(c) && c != last {
                let k = choose|k: int| 0 <= k < list.len() && list[k] == c;
                assert(k < before.len());
                assert(before[k] == c);
            }
            if list.len() > before.len() {
                assert(list[list.len() - 1] == last);
            }
        }
    }
}

/// What is offered for a query is admissible, and starts with what ranks first.
pub proof fn law_offered_candidates(request: RequestOptions, query: Seq<char>)
    ensures
        offered(request, query) matches Ok(options) ==> {
            let list = admissible(request, query, request.candidates)->Ok_0;
            &&& options.len() > 0
            &&& forall|i: int| 0 <= i < options.len() ==> list.contains(#[trigger] options[i])
            &&& forall|c: CandidateView| #[trigger] list.contains(c) ==> rank_leq(options[0], c)
            &&& forall|c: CandidateView| #[trigger] list.contains(c) ==> holds_package(options, c)
        },
{
    broadcast use vstd::seq_lib::group_to_multiset_ensures;

    if offered(request, query) is Ok {
        let list = admissible(request, query, request.candidates)->Ok_0;
        let order = ranked(list);
        let options = deduplicated(order);
        law_ranking_keeps_candidates(list);
        law_duplicates_are_dropped(order);
        assert forall|i: int| 0 <= i < options.len() implies list.contains(#[trigger] options[i]) by {
            assert(order.contains(options[i]));
            assert(order.to_multiset().count(options[i]) > 0);
        }
        assert forall|c: CandidateView| #[trigger] list.contains(c) implies rank_leq(options[0], c)
            && holds_package(options, c) by {
            assert(list.to_multiset().count(c) > 0);
            assert(order.contains(c));
            let k = choose|k: int| 0 <= k < order.len() && order[k] == c;
            law_rank_order(order[0], order[0], order[0]);
            assert(holds_package(options, order[k]));
        }
    }
}

/// Without questions, a candidate is taken only if all that could be taken are of
/// its instance, and it ranks first among them.
pub proof fn law_unattended_choice_is_best(
    request: RequestOptions,
    query: Seq<char>,
    chosen: CandidateView,
)
    requires
        offered(request, query) matches Ok(options) && unattended_choice(query, options) == Ok::<
            CandidateView,
            ErrorView,
        >(chosen),
    ensures
        admissible(request, query, request.candidates) matches Ok(list) && list.contains(chosen)
            && forall|c: CandidateView| #[trigger]
            list.contains(c) ==> rank_leq(chosen, c) && c.manager_instance_id
                == chosen.manager_instance_id,
{
    law_offered_candidates(request, query);
    let options = offered(request, query)->Ok_0;
    let list = admissible(request, query, request.candidates)->Ok_0;
    let given = options.map_values(|c: CandidateView| c.manager_instance_id);
    let ids = instance_ids(options);
    lemma_sorted_set(given);
    assert(list.contains(options[0]));
    assert forall|c: CandidateView| #[trigger] list.contains(c) implies c.manager_instance_id
        == chosen.manager_instance_id by {
        let k = choose|k: int| 0 <= k < options.len() && one_package(#[trigger] options[k], c);
        assert(given[k] == c.manager_instance_id);
        assert(given[0] == chosen.manager_instance_id);
        assert(ids.contains(given[k]));
        assert(ids.contains(given[0]));
    }
}

/// Without questions none is asked, whatever answers there are.
pub proof fn law_unattended_selection_never_asks(
    request: RequestOptions,
    queries: Seq<Seq<char>>,
    answers: Seq<usize>,
)
    requires
        !request.allow_prompts,
    ensures
        !(selections(request, queries, answers) matches Ok(PickView::Ask(_))),
        selections(request, queries, answers) matches Ok(PickView::Chosen(_, next)) ==> next == 0,
        selections(request, queries, answers) == selections(request, queries, Seq::empty()),
    decreases queries.len(),
{
    if queries.len() > 0 {
        law_unattended_selection_never_asks(request, queries.drop_last(), answers);
    }
}

/// Whether a selection is one that the request allows.
pub open spec fn allowed(request: RequestOptions, selection: SelectionView) -> bool {
    let c = selection.candidate;
    &&& request.candidates.contains(c)
    &&& c.query == selection.query
    &&& request.instance_override matches Some(requested) ==> c.manager_instance_id == requested
    &&& request.target_override matches Some(requested) ==> is_requested(selection.target, requested)
    &&& find_instance(request.instances, c.manager_instance_id) matches Some(instance) && instance.kind
        == c.manager
    &&& targets_of(request, c) matches Ok(targets) && targets.contains(selection.target)
}

proof fn lemma_requested_target(targets: Seq<TargetView>, requested: Seq<char>)
    ensures
        requested_target(targets, requested) matches Some(target) ==> targets.contains(target)
            && is_requested(target, requested),
    decreases targets.len(),
{
    if targets.len() > 0 && requested_target(targets, requested) is Some {
        if is_requested(targets[0], requested) {
            assert(targets.contains(targets[0]));
        } else {
            lemma_requested_target(targets.drop_first(), requested);
            let target = requested_target(targets, requested)->Some_0;
            let rest = targets.drop_first();
            let k = choose|k: int| 0 <= k < rest.len() && rest[k] == target;
            assert(targets[k + 1] == target);
        }
    }
}

/// What is chosen is one of the options.
proof fn lemma_candidate_choice(
    query: Seq<char>,
    options: Seq<CandidateView>,
    prompts: bool,
    answers: Seq<usize>,
    next: nat,
)
    requires
        options.len() > 0,
    ensures
        candidate_choice(query, options, prompts, answers, next) matches Ok(
            PickView::Chosen(candidate, _),
        ) ==> options.contains(candidate),
{
    assert(options.contains(options[0]));
}

/// What is chosen is one of the targets, and the one that the user named.
proof fn lemma_target_choice(
    query: Seq<char>,
    targets: Seq<TargetView>,
    requested: Option<Seq<char>>,
    prompts: bool,
    answers: Seq<usize>,
    next: nat,
)
    ensures
        target_choice(query, targets, requested, prompts, answers, next) matches Ok(
            PickView::Chosen(target, _),
        ) ==> targets.contains(target) && (requested matches Some(requested) ==> is_requested(
            target,
            requested,
        )),
{
    if let Some(requested) = requested {
        lemma_requested_target(targets, requested);
    }
}

/// What is offered for a query was found for it, by the instance that the user named.
proof fn lemma_offered_is_allowed(request: RequestOptions, query: Seq<char>, c: CandidateView)
    requires
        offered(request, query) matches Ok(options) && options.contains(c),
    ensures
        request.candidates.contains(c),
        concerns(request, query, c),
        admitted(request, c) == Ok::<bool, ErrorView>(true),
{
    let options = offered(request, query)->Ok_0;
    let k = choose|k: int| 0 <= k < options.len() && options[k] == c;
    let list = admissible(request, query, request.candidates)->Ok_0;
    law_offered_candidates(request, query);
    law_admissible_candidates(request, query, request.candidates);
    assert(list.contains(options[k]));
}

proof fn lemma_one_selection(
    request: RequestOptions,
    query: Seq<char>,
    answers: Seq<usize>,
    next: nat,
)
    ensures
        one_selection(request, query, answers, next) matches Ok(PickView::Chosen(selection, _)) ==> (
        selection.query == query && allowed(request, selection)),
{
    if let Ok(options) = offered(request, query) {
        law_offered_candidates(request, query);
        let prompts = request.allow_prompts;
        lemma_candidate_choice(query, options, prompts, answers, next);
        if let Ok(PickView::Chosen(candidate, after)) = candidate_choice(
            query,
            options,
            prompts,
            answers,
            next,
        ) {
            lemma_offered_is_allowed(request, query, candidate);
            if let Ok(targets) = targets_of(request, candidate) {
                lemma_target_choice(
                    query,
                    targets,
                    request.target_override,
                    prompts,
                    answers,
                    after,
                );
            }
        }
    }
}

/// Every query gets one selection, in order, and each selection is one that the
/// request allows: a candidate that was found for the query, of the instance that
/// the user named, and a compatible target, the one that the user named.
pub proof fn law_selections_are_allowed(
    request: RequestOptions,
    queries: Seq<Seq<char>>,
    answers: Seq<usize>,
)
    ensures
        selections(request, queries, answers) matches Ok(PickView::Chosen(list, _)) ==> (list.len()
            == queries.len() && forall|i: int|
            0 <= i < list.len() ==> (#[trigger] list[i]).query == queries[i] && allowed(
                request,
                list[i],
            )),
    decreases queries.len(),
{
    if queries.len() > 0 {
        if let Ok(PickView::Chosen(list, _)) = selections(request, queries, answers) {
            let rest = queries.drop_last();
            law_selections_are_allowed(request, rest, answers);
            if let Ok(PickView::Chosen(before, next)) = selections(request, rest, answers) {
                lemma_one_selection(request, queries.last(), answers, next);
                assert forall|i: int| 0 <= i < list.len() implies (#[trigger] list[i]).query
                    == queries[i] && allowed(request, list[i]) by {
                    if i < before.len() {
                        assert(list[i] == before[i]);
                        assert(rest[i] == queries[i]);
                    }
                }
            }
        }
    }
}

/// At the question for a target the user gets what stands at the place they picked,
/// and uses up one answer; different answers give what stands at different places.
/// Without an answer that names a place, the question is asked, with one label for
/// each target, in their order.
pub proof fn law_answer_picks_the_target_at_its_place(
    query: Seq<char>,
    targets: Seq<TargetView>,
    answers: Seq<usize>,
    next: nat,
)
    ensures
        next < answers.len() && answers[next as int] < targets.len() ==> target_choice(
            query,
            targets,
            None,
            true,
            answers,
            next,
        ) == Ok::<_, ErrorView>(PickView::Chosen(targets[answers[next as int] as int], next + 1)),
        !(next < answers.len() && answers[next as int] < targets.len()) ==> (target_choice(
            query,
            targets,
            None,
            true,
            answers,
            next,
        ) matches Ok(PickView::Ask(prompt)) && {
            &&& prompt.text == "Select installation target for "@ + query
            &&& prompt.labels.len() == targets.len()
            &&& forall|i: int|
                0 <= i < targets.len() ==> #[trigger] prompt.labels[i] == brief(targets[i].label)
                    + " ["@ + brief(targets[i].id) + "]"@
        }),
{
}

/// Without a question, a target is taken if and only if it is the only one.
pub proof fn law_only_target_needs_no_answer(
    query: Seq<char>,
    targets: Seq<TargetView>,
    answers: Seq<usize>,
    next: nat,
)
    ensures
        targets.len() == 1 ==> target_choice(query, targets, None, false, answers, next) == Ok::<
            _,
            ErrorView,
        >(PickView::Chosen(targets[0], next)),
        targets.len() != 1 ==> (target_choice(
            query,
            targets,
            None,
            false,
            answers,
            next,
        ) matches Err(e) && e.kind == ErrorKind::SeveralTargets),
{
}

/// The target that the user named is the first whose id or path reads as they wrote,
/// whatever was answered and whether or not questions are asked; there is an error if
/// and only if no target reads so.
pub proof fn law_named_target_is_taken(
    query: Seq<char>,
    targets: Seq<TargetView>,
    requested: Seq<char>,
    prompts: bool,
    answers: Seq<usize>,
    next: nat,
    k: int,
)
    ensures
        0 <= k < targets.len() && (targets[k].id == requested || (targets[k].path matches Some(path)
            && path_text(path) == requested)) && (forall|j: int|
            0 <= j < k ==> (#[trigger] targets[j]).id != requested && (
            targets[j].path matches Some(path) ==> path_text(path) != requested)) ==> target_choice(
            query,
            targets,
            Some(requested),
            prompts,
            answers,
            next,
        ) == Ok::<_, ErrorView>(PickView::Chosen(targets[k], next)),
        (forall|j: int|
            0 <= j < targets.len() ==> (#[trigger] targets[j]).id != requested && (
            targets[j].path matches Some(path) ==> path_text(path) != requested)) ==> (target_choice(
            query,
            targets,
            Some(requested),
            prompts,
            answers,
            next,
        ) matches Err(e) && e.kind == ErrorKind::IncompatibleTarget),
{
    if 0 <= k < targets.len() && (targets[k].id == requested || (targets[k].path matches Some(path)
        && path_text(path) == requested)) && (forall|j: int|
        0 <= j < k ==> (#[trigger] targets[j]).id != requested && (
        targets[j].path matches Some(path) ==> path_text(path) != requested)) {
        lemma_named_target(targets, requested, k);
    }
    if forall|j: int|
        0 <= j < targets.len() ==> (#[trigger] targets[j]).id != requested && (
        targets[j].path matches Some(path) ==> path_text(path) != requested) {
        lemma_no_named_target(targets, requested);
    }
}

proof fn lemma_named_target(targets: Seq<TargetView>, requested: Seq<char>, k: int)
    requires
        0 <= k < targets.len(),
        is_requested(targets[k], requested),
        forall|j: int| 0 <= j < k ==> !is_requested(#[trigger] targets[j], requested),
    ensures
        requested_target(targets, requested) == Some(targets[k]),
    decreases targets.len(),
{
    if k > 0 {
        assert(!is_requested(targets[0], requested));
        let rest = targets.drop_first();
        assert forall|j: int| 0 <= j < k - 1 implies !is_requested(#[trigger] rest[j], requested) by {
            assert(rest[j] == targets[j + 1]);
        }
        lemma_named_target(rest, requested, k - 1);
    }
}

proof fn lemma_no_named_target(targets: Seq<TargetView>, requested: Seq<char>)
    requires
        forall|j: int| 0 <= j < targets.len() ==> !is_requested(#[trigger] targets[j], requested),
    ensures
        requested_target(targets, requested) is None,
    decreases targets.len(),
{
    if targets.len() > 0 {
        assert(!is_requested(targets[0], requested));
        let rest = targets.drop_first();
        assert forall|j: int| 0 <= j < rest.len() implies !is_requested(
            #[trigger] rest[j],
            requested,
        ) by {
            assert(rest[j] == targets[j + 1]);
        }
        lemma_no_named_target(rest, requested);
    }
}

/// At the question for a package the user gets what stands at the place they picked,
/// and uses up one answer. Without an answer that names a place, the question is
/// asked, with one label for each candidate, in their order.
pub proof fn law_answer_picks_the_candidate_at_its_place(
    query: Seq<char>,
    options: Seq<CandidateView>,
    answers: Seq<usize>,
    next: nat,
)
    ensures
        next < answers.len() && answers[next as int] < options.len() ==> candidate_choice(
            query,
            options,
            true,
            answers,
            next,
        ) == Ok::<_, ErrorView>(PickView::Chosen(options[answers[next as int] as int], next + 1)),
        !(next < answers.len() && answers[next as int] < options.len()) ==> (candidate_choice(
            query,
            options,
            true,
            answers,
            next,
        ) matches Ok(PickView::Ask(prompt)) && {
            &&& prompt.text == "Select manager and package for "@ + query
            &&& prompt.labels.len() == options.len()
            &&& forall|i: int|
                0 <= i < options.len() ==> #[trigger] prompt.labels[i] == candidate_line(options[i])
        }),
{
}

/// Whether `c` and `d` answer a query equally well: both or neither bear its name, up
/// to the case of letters, and their scores are the same.
pub open spec fn equally_good(query: Seq<char>, c: CandidateView, d: CandidateView) -> bool {
    c.score == d.score && (lower(c.package) == lower(query) <==> lower(d.package) == lower(query))
}

/// Without questions the first candidate is taken if and only if all candidates are of
/// one instance and the second, if there is one, is not as good; answers play no part.
/// What is wrong otherwise is told by the kind of the error.
pub proof fn law_unattended_choice_is_the_first_or_none(
    query: Seq<char>,
    options: Seq<CandidateView>,
    answers: Seq<usize>,
    next: nat,
)
    ensures
        ({
            let r = candidate_choice(query, options, false, answers, next);
            let one_instance = forall|i: int, j: int|
                0 <= i < options.len() && 0 <= j < options.len() ==> (
                #[trigger] options[i]).manager_instance_id == (
                #[trigger] options[j]).manager_instance_id;
            &&& !one_instance ==> (r matches Err(e) && e.kind == ErrorKind::SeveralInstances)
            &&& options.len() == 0 ==> (r matches Err(e) && e.kind == ErrorKind::NoCandidate)
            &&& one_instance && options.len() == 1 ==> r == Ok::<_, ErrorView>(
                PickView::Chosen(options[0], next),
            )
            &&& one_instance && options.len() > 1 && !equally_good(query, options[1], options[0])
                ==> r == Ok::<_, ErrorView>(PickView::Chosen(options[0], next))
            &&& one_instance && options.len() > 1 && equally_good(query, options[1], options[0])
                ==> (r matches Err(e) && e.kind == ErrorKind::Ambiguous)
        }),
{
    let given = options.map_values(|c: CandidateView| c.manager_instance_id);
    let ids = instance_ids(options);
    lemma_sorted_set(given);
    let one_instance = forall|i: int, j: int|
        0 <= i < options.len() && 0 <= j < options.len() ==> (
        #[trigger] options[i]).manager_instance_id == (#[trigger] options[j]).manager_instance_id;
    if one_instance {
        if ids.len() > 1 {
            assert(ids.contains(ids[0]) && ids.contains(ids[1]));
            assert(given.contains(ids[0]) && given.contains(ids[1]));
            let i = choose|i: int| 0 <= i < given.len() && given[i] == ids[0];
            let j = choose|j: int| 0 <= j < given.len() && given[j] == ids[1];
            assert(options[i].manager_instance_id == options[j].manager_instance_id);
            crate::order::lemma_text_order(ids[0], ids[1]);
            assert(false);
        }
        if options.len() > 0 {
            let rest = options.drop_first();
            reveal_with_fuel(tied_count, 3);
            if options.len() > 1 {
                assert(rest[0] == options[1]);
            }
        }
    } else {
        let (i, j) = choose|i: int, j: int|
            0 <= i < options.len() && 0 <= j < options.len() && (
            #[trigger] options[i]).manager_instance_id != (#[trigger] options[j]).manager_instance_id;
        assert(given[i] == options[i].manager_instance_id);
        assert(given[j] == options[j].manager_instance_id);
        assert(given.contains(given[i]) && given.contains(given[j]));
        assert(ids.contains(given[i]) && ids.contains(given[j]));
        let m = choose|m: int| 0 <= m < ids.len() && ids[m] == given[i];
        let n = choose|n: int| 0 <= n < ids.len() && ids[n] == given[j];
        assert(m != n);
    }
    if options.len() == 0 {
        assert(given.len() == 0);
        if ids.len() > 0 {
            assert(ids.contains(ids[0]));
        }
    }
}

/// Where questions are asked and no target was named, each query uses up two answers:
/// the first picks among the candidates that are offered for it, the second among the
/// targets of what was picked.
pub proof fn law_selections_follow_the_answers(
    request: RequestOptions,
    queries: Seq<Seq<char>>,
    answers: Seq<usize>,
)
    requires
        request.allow_prompts,
        request.target_override is None,
    ensures
        selections(request, queries, answers) matches Ok(PickView::Chosen(list, next)) ==> {
            &&& next == 2 * queries.len()
            &&& next <= answers.len()
            &&& list.len() == queries.len()
            &&& forall|i: int|
                0 <= i < list.len() ==> {
                    &&& (#[trigger] list[i]).query == queries[i]
                    &&& offered(request, queries[i]) matches Ok(options) && list[i].candidate
                        == options[answers[2 * i] as int]
                    &&& targets_of(request, list[i].candidate) matches Ok(targets)
                        && list[i].target == targets[answers[2 * i + 1] as int]
                }
        },
    decreases queries.len(),
{
    if queries.len() > 0 {
        let rest = queries.drop_last();
        law_selections_follow_the_answers(request, rest, answers);
        if let Ok(PickView::Chosen(list, next)) = selections(request, queries, answers) {
            if let Ok(PickView::Chosen(before, middle)) = selections(request, rest, answers) {
                assert(list.drop_last() =~= before);
                assert forall|i: int| 0 <= i < list.len() implies {
                    &&& (#[trigger] list[i]).query == queries[i]
                    &&& offered(request, queries[i]) matches Ok(options) && list[i].candidate
                        == options[answers[2 * i] as int]
                    &&& targets_of(request, list[i].candidate) matches Ok(targets)
                        && list[i].target == targets[answers[2 * i + 1] as int]
                } by {
                    if i < before.len() {
                        assert(list[i] == before[i]);
                        assert(rest[i] == queries[i]);
                    } else {
                        assert(queries[i] == queries.last());
                    }
                }
            }
        }
    }
}

/// Where questions are asked and a target was named, each query uses up one answer,
/// which picks among the candidates that are offered for it; the target is one that
/// reads as the user wrote.
pub proof fn law_named_target_leaves_one_answer_each(
    request: RequestOptions,
    queries: Seq<Seq<char>>,
    answers: Seq<usize>,
)
    requires
        request.allow_prompts,
        request.target_override is Some,
    ensures
        selections(request, queries, answers) matches Ok(PickView::Chosen(list, next)) ==> {
            &&& next == queries.len()
            &&& next <= answers.len()
            &&& list.len() == queries.len()
            &&& forall|i: int|
                0 <= i < list.len() ==> {
                    &&& (#[trigger] list[i]).query == queries[i]
                    &&& offered(request, queries[i]) matches Ok(options) && list[i].candidate
                        == options[answers[i] as int]
                    &&& list[i].target.id == request.target_override->0 || (
                    list[i].target.path matches Some(path) && path_text(path)
                        == request.target_override->0)
                }
        },
    decreases queries.len(),
{
    if queries.len() > 0 {
        let rest = queries.drop_last();
        law_named_target_leaves_one_answer_each(request, rest, answers);
        if let Ok(PickView::Chosen(list, next)) = selections(request, queries, answers) {
            if let Ok(PickView::Chosen(before, middle)) = selections(request, rest, answers) {
                lemma_one_selection(request, queries.last(), answers, middle);
                assert(list.drop_last() =~= before);
                assert forall|i: int| 0 <= i < list.len() implies {
                    &&& (#[trigger] list[i]).query == queries[i]
                    &&& offered(request, queries[i]) matches Ok(options) && list[i].candidate
                        == options[answers[i] as int]
                    &&& list[i].target.id == request.target_override->0 || (
                    list[i].target.path matches Some(path) && path_text(path)
                        == request.target_override->0)
                } by {
                    if i < before.len() {
                        assert(list[i] == before[i]);
                        assert(rest[i] == queries[i]);
                    } else {
                        assert(queries[i] == queries.last());
                    }
                }
            }
        }
    }
}

/// Of two candidates the one ranks first that bears the very name that was asked for;
/// then the one that bears it but for the case of letters; then the one with the
/// higher score; then the one of the instance whose id comes first.
pub proof fn law_better_named_ranks_first(a: CandidateView, b: CandidateView)
    ensures
        ({
            let a_named = a.package == a.query;
            let b_named = b.package == b.query;
            let a_alike = lower(a.package) == lower(a.query);
            let b_alike = lower(b.package) == lower(b.query);
            &&& a_named && !b_named ==> !rank_leq(b, a)
            &&& a_named == b_named && a_alike && !b_alike ==> !rank_leq(b, a)
            &&& a_named == b_named && a_alike == b_alike && a.score > b.score ==> !rank_leq(b, a)
            &&& a_named == b_named && a_alike == b_alike && a.score == b.score
                && crate::order::text_order(a.manager_instance_id, b.manager_instance_id)
                == Ordering::Less ==> !rank_leq(b, a)
        }),
{
    lemma_rank_key(b, a);
    reveal_with_fuel(word_order, 2);
    crate::order::lemma_text_order(a.manager_instance_id, b.manager_instance_id);
}

/// What is offered for a query is in the order of ranks and was found for the query, by
/// the instance that the user named if they named one. Where no target was named, every
/// package that was found so is offered, one candidate for each version of an instance.
pub proof fn law_offered_in_order(request: RequestOptions, query: Seq<char>)
    ensures
        offered(request, query) matches Ok(options) ==> {
            &&& forall|i: int, j: int|
                0 <= i < j < options.len() ==> rank_leq(#[trigger] options[i], #[trigger] options[j])
            &&& forall|i: int|
                0 <= i < options.len() ==> request.candidates.contains(#[trigger] options[i])
                    && options[i].query == query && (
                request.instance_override matches Some(requested)
                    ==> options[i].manager_instance_id == requested)
            &&& forall|k: int|
                0 <= k < request.candidates.len() && (#[trigger] request.candidates[k]).query
                    == query && (request.instance_override matches Some(requested)
                    ==> request.candidates[k].manager_instance_id == requested)
                    && request.target_override is None ==> exists|i: int|
                    0 <= i < options.len() && (#[trigger] options[i]).manager_instance_id
                        == request.candidates[k].manager_instance_id && lower(options[i].package)
                        == lower(request.candidates[k].package) && options[i].version
                        == request.candidates[k].version
        },
{
    if let Ok(options) = offered(request, query) {
        lemma_offered_by_rank(request, query);
        assert forall|i: int| 0 <= i < options.len() implies request.candidates.contains(
            #[trigger] options[i],
        ) && options[i].query == query && (request.instance_override matches Some(requested)
            ==> options[i].manager_instance_id == requested) by {
            lemma_offered_is_allowed(request, query, options[i]);
        }
        assert forall|k: int|
            0 <= k < request.candidates.len() && (#[trigger] request.candidates[k]).query == query
                && (request.instance_override matches Some(requested)
                ==> request.candidates[k].manager_instance_id == requested)
                && request.target_override is None implies exists|i: int|
            0 <= i < options.len() && (#[trigger] options[i]).manager_instance_id
                == request.candidates[k].manager_instance_id && lower(options[i].package) == lower(
                request.candidates[k].package,
            ) && options[i].version == request.candidates[k].version by {
            lemma_found_is_offered(request, query, k);
            let c = request.candidates[k];
            let i = choose|i: int| 0 <= i < options.len() && one_package(#[trigger] options[i], c);
            assert(options[i].manager_instance_id == c.manager_instance_id);
        }
    }
}

proof fn lemma_offered_by_rank(request: RequestOptions, query: Seq<char>)
    requires
        offered(request, query) is Ok,
    ensures
        forall|i: int, j: int|
            0 <= i < j < offered(request, query)->Ok_0.len() ==> rank_leq(
                #[trigger] offered(request, query)->Ok_0[i],
                #[trigger] offered(request, query)->Ok_0[j],
            ),
{
    let list = admissible(request, query, request.candidates)->Ok_0;
    law_ranking_keeps_candidates(list);
    lemma_kept_in_order(ranked(list));
}

proof fn lemma_found_is_offered(request: RequestOptions, query: Seq<char>, k: int)
    requires
        offered(request, query) is Ok,
        0 <= k < request.candidates.len(),
        concerns(request, query, request.candidates[k]),
        request.target_override is None,
    ensures
        holds_package(offered(request, query)->Ok_0, request.candidates[k]),
{
    let c = request.candidates[k];
    let list = admissible(request, query, request.candidates)->Ok_0;
    law_offered_candidates(request, query);
    law_admissible_candidates(request, query, request.candidates);
    lemma_concerned_is_admitted(request, query, request.candidates, k);
    assert(request.candidates.contains(c));
    assert(list.contains(c));
}

proof fn lemma_concerned_is_admitted(
    request: RequestOptions,
    query: Seq<char>,
    candidates: Seq<CandidateView>,
    k: int,
)
    requires
        admissible(request, query, candidates) is Ok,
        0 <= k < candidates.len(),
        concerns(request, query, candidates[k]),
        request.target_override is None,
    ensures
        admitted(request, candidates[k]) == Ok::<bool, ErrorView>(true),
    decreases candidates.len(),
{
    if k < candidates.len() - 1 {
        assert(candidates.drop_last()[k] == candidates[k]);
        lemma_concerned_is_admitted(request, query, candidates.drop_last(), k);
    }
}

proof fn lemma_kept_in_order(candidates: Seq<CandidateView>)
    requires
        forall|i: int, j: int|
            0 <= i < j < candidates.len() ==> rank_leq(
                #[trigger] candidates[i],
                #[trigger] candidates[j],
            ),
    ensures
        forall|i: int, j: int|
            0 <= i < j < deduplicated(candidates).len() ==> rank_leq(
                #[trigger] deduplicated(candidates)[i],
                #[trigger] deduplicated(candidates)[j],
            ),
    decreases candidates.len(),
{
    if candidates.len() > 0 {
        let rest = candidates.drop_last();
        assert forall|i: int, j: int| 0 <= i < j < rest.len() implies rank_leq(
            #[trigger] rest[i],
            #[trigger] rest[j],
        ) by {
            assert(rest[i] == candidates[i] && rest[j] == candidates[j]);
        }
        lemma_kept_in_order(rest);
        law_duplicates_are_dropped(rest);
        let kept = deduplicated(candidates);
        let before = deduplicated(rest);
        assert forall|i: int, j: int| 0 <= i < j < kept.len() implies rank_leq(
            #[trigger] kept[i],
            #[trigger] kept[j],
        ) by {
            if j < before.len() {
                assert(kept[i] == before[i] && kept[j] == before[j]);
            } else {
                assert(kept[i] == before[i]);
                assert(rest.contains(before[i]));
                let m = choose|m: int| 0 <= m < rest.len() && rest[m] == before[i];
                assert(candidates[m] == kept[i]);
                assert(candidates[candidates.len() - 1] == kept[j]);
            }
        }
    }
}

/// What is offered depends on the target that the user named only in that a candidate
/// is left out if none of the targets of its instance reads so; and a candidate of an
/// instance that is not known, or of another manager than its instance, is an error.
pub proof fn law_named_target_narrows_the_offer(request: RequestOptions, c: CandidateView)
    ensures
        find_instance(request.instances, c.manager_instance_id) is None ==> (admitted(
            request,
            c,
        ) matches Err(e) && e.kind == ErrorKind::UnknownInstance),
        find_instance(request.instances, c.manager_instance_id) matches Some(instance) ==> {
            &&& instance.kind != c.manager ==> (admitted(request, c) matches Err(e) && e.kind
                == ErrorKind::ManagerMismatch)
            &&& instance.kind == c.manager && request.target_override is None ==> admitted(
                request,
                c,
            ) == Ok::<bool, ErrorView>(true)
            &&& (instance.kind == c.manager && request.target_override is Some && registered(
                request.adapters,
                instance.kind,
            ) is Ok) ==> {
                let targets = registered(request.adapters, instance.kind)->Ok_0.targets(
                    request.host,
                    instance,
                    request.context,
                );
                let requested = request.target_override->0;
                admitted(request, c) == Ok::<bool, ErrorView>(
                    exists|k: int|
                        0 <= k < targets.len() && ((#[trigger] targets[k]).id == requested || (
                        targets[k].path matches Some(path) && path_text(path) == requested)),
                )
            }
        },
{
    if let Some(instance) = find_instance(request.instances, c.manager_instance_id) {
        if instance.kind == c.manager && request.target_override is Some && registered(
            request.adapters,
            instance.kind,
        ) is Ok {
            let targets = registered(request.adapters, instance.kind)->Ok_0.targets(
                request.host,
                instance,
                request.context,
            );
            let requested = request.target_override->0;
            lemma_requested_target(targets, requested);
            if forall|j: int|
                0 <= j < targets.len() ==> !is_requested(#[trigger] targets[j], requested) {
                lemma_no_named_target(targets, requested);
            } else {
                let j = choose|j: int|
                    0 <= j < targets.len() && is_requested(#[trigger] targets[j], requested);
                lemma_some_named_target(targets, requested, j);
                assert(targets[j].id == requested || (targets[j].path matches Some(path)
                    && path_text(path) == requested));
            }
        }
    }
}

proof fn lemma_some_named_target(targets: Seq<TargetView>, requested: Seq<char>, k: int)
    requires
        0 <= k < targets.len(),
        is_requested(targets[k], requested),
    ensures
        requested_target(targets, requested) is Some,
    decreases targets.len(),
{
    if !is_requested(targets[0], requested) {
        assert(targets.drop_first()[k - 1] == targets[k]);
        lemma_some_named_target(targets.drop_first(), requested, k - 1);
    }
}

/// Without questions, what is taken for a query is the first of what is offered for it;
/// its target is the only one there is, or reads as the user wrote.
pub proof fn law_unattended_selections_take_the_first(
    request: RequestOptions,
    queries: Seq<Seq<char>>,
    answers: Seq<usize>,
)
    requires
        !request.allow_prompts,
    ensures
        selections(request, queries, answers) matches Ok(PickView::Chosen(list, _)) ==> list.len()
            == queries.len() && forall|i: int|
            0 <= i < list.len() ==> {
                &&& (#[trigger] list[i]).query == queries[i]
                &&& offered(request, queries[i]) matches Ok(options) && options.len() > 0
                    && list[i].candidate == options[0]
                &&& request.target_override is None ==> (targets_of(
                    request,
                    list[i].candidate,
                ) matches Ok(targets) && targets == seq![list[i].target])
                &&& request.target_override matches Some(requested) ==> list[i].target.id
                    == requested || (list[i].target.path matches Some(path) && path_text(path)
                    == requested)
            },
    decreases queries.len(),
{
    if queries.len() > 0 {
        let rest = queries.drop_last();
        law_unattended_selections_take_the_first(request, rest, answers);
        if let Ok(PickView::Chosen(list, next)) = selections(request, queries, answers) {
            if let Ok(PickView::Chosen(before, middle)) = selections(request, rest, answers) {
                let query = queries.last();
                lemma_one_selection(request, query, answers, middle);
                law_offered_candidates(request, query);
                let last = list.last();
                if request.target_override is None {
                    assert(targets_of(request, last.candidate)->Ok_0 =~= seq![last.target]);
                }
                assert forall|i: int| 0 <= i < list.len() implies {
                    &&& (#[trigger] list[i]).query == queries[i]
                    &&& offered(request, queries[i]) matches Ok(options) && options.len() > 0
                        && list[i].candidate == options[0]
                    &&& request.target_override is None ==> (targets_of(
                        request,
                        list[i].candidate,
                    ) matches Ok(targets) && targets == seq![list[i].target])
                    &&& request.target_override matches Some(requested) ==> list[i].target.id
                        == requested || (list[i].target.path matches Some(path) && path_text(path)
                        == requested)
                } by {
                    if i < before.len() {
                        assert(list[i] == before[i]);
                        assert(rest[i] == queries[i]);
                    } else {
                        assert(queries[i] == query);
                    }
                }
            }
        }
    }
}

/// The targets of a candidate are those of its instance, by the manager of the instance; it
/// is an error if there is none.
pub proof fn law_targets_are_those_of_the_instance(request: RequestOptions, c: CandidateView)
    ensures
        match find_instance(request.instances, c.manager_instance_id) {
            None => targets_of(request, c) matches Err(e) && e.kind == ErrorKind::InstanceMissing,
            Some(instance) => match registered(request.adapters, instance.kind) {
                Err(e) => targets_of(request, c) == Err::<Seq<TargetView>, ErrorView>(e),
                Ok(adapter) => {
                    let targets = adapter.targets(request.host, instance, request.context);
                    &&& targets.len() == 0 ==> (targets_of(request, c) matches Err(e) && e.kind
                        == ErrorKind::NoTarget)
                    &&& targets.len() > 0 ==> targets_of(request, c) == Ok::<
                        Seq<TargetView>,
                        ErrorView,
                    >(targets)
                },
            },
        },
{
}

} // verus!
