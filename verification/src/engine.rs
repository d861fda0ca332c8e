//! Doctor, search, and install orchestration.

use vstd::prelude::*;

use crate::adapters::{ManagerAdapter, query_verdict, validate_query};
use crate::adapters::registry::{Adapter, registered, Registry};
use crate::context::{ContextView, has_target, has_target_id, ProjectContext};
use crate::error::{
    debug_quoted, debug_text, Error, ErrorKind, ErrorView, failure, outcome, outcome_list, verdict,
};
use crate::host::{Host, HostView};
use crate::matching::{
    assess_identity, assessment, canonical_match, exact_match, law_exact_means_identity,
    unattended_exact,
};
use crate::model::{
    Candidate, CandidateView, InstallPlan, InstanceView, manager_name, ManagerInstance, ManagerKind,
    PlanView, Selection, SelectionView, Target, TargetView,
};
use crate::planner::{build_plan, plan_of, Setting};
use crate::selection::{
    allowed, law_selections_are_allowed, law_unattended_selection_never_asks, PickView, Prompt,
    PromptView, RequestOptions, select_installations, SelectionOutcome, SelectionRequest,
    selections,
};
use crate::text::{
    cat2, cat3, concat, concat_texts, decimal, decimal_text, distinct, has_text, join, join_texts,
    lemma_distinct, list_of, option_view, views,
};
use crate::ui::{brief, terminal_safe};

verus! {

broadcast use crate::text::group_views;

/// The most packages that one call may ask for.
pub const MAX_PACKAGES: usize = 64;

// ---------------------------------------------------------------------------
// Queries
// ---------------------------------------------------------------------------

/// What is wrong with the first query that something is wrong with.
pub open spec fn queries_verdict(packages: Seq<Seq<char>>) -> Result<(), ErrorView>
    decreases packages.len(),
{
    if packages.len() == 0 {
        Ok(())
    } else {
        match queries_verdict(packages.drop_last()) {
            Err(e) => Err(e),
            Ok(_) => query_verdict(packages.last()),
        }
    }
}

/// The queries, each once, in the order in which they first came.
pub open spec fn normalized_packages(packages: Seq<Seq<char>>) -> Result<Seq<Seq<char>>, ErrorView> {
    if packages.len() > MAX_PACKAGES {
        Err(
            failure(
                ErrorKind::TooManyPackages,
                "a single batch is limited to "@ + decimal(MAX_PACKAGES as nat)
                    + " package queries"@,
            ),
        )
    } else {
        match queries_verdict(packages) {
            Err(e) => Err(e),
            Ok(_) => Ok(distinct(packages)),
        }
    }
}

proof fn lemma_queries_verdict_stops(packages: Seq<Seq<char>>, n: int)
    requires
        0 <= n <= packages.len(),
        queries_verdict(packages.take(n)) is Err,
    ensures
        queries_verdict(packages) == queries_verdict(packages.take(n)),
    decreases packages.len() - n,
{
    if n < packages.len() {
        assert(packages.take(n + 1).drop_last() =~= packages.take(n));
        lemma_queries_verdict_stops(packages, n + 1);
    } else {
        assert(packages.take(n) =~= packages);
    }
}

pub fn normalize_packages(packages: Vec<String>) -> (r: Result<Vec<String>, Error>)
    ensures
        outcome_list(r) == normalized_packages(views(packages@)),
{
    let ghost all = views(packages@);
    let n: usize = packages.len();
    assert(all.len() == n);
    if n > MAX_PACKAGES {
        return Err(
            Error::new(
                ErrorKind::TooManyPackages,
                cat3(
                    "a single batch is limited to ",
                    decimal_text(MAX_PACKAGES).as_str(),
                    " package queries",
                ).as_str(),
            ),
        );
    }
    let mut normalized: Vec<String> = Vec::new();
    assert(views(normalized@) =~= distinct(all.take(0)));
    for i in 0..n
        invariant
            n == packages@.len(),
            n <= MAX_PACKAGES,
            all == views(packages@),
            queries_verdict(all.take(i as int)) == Ok::<(), ErrorView>(()),
            views(normalized@) == distinct(all.take(i as int)),
    {
        proof {
            assert(all.take(i + 1).drop_last() =~= all.take(i as int));
            assert(all.take(i + 1).last() == packages@[i as int]@);
        }
        match validate_query(packages[i].as_str()) {
            Ok(_) => {},
            Err(e) => {
                proof {
                    lemma_queries_verdict_stops(all, i + 1);
                }
                return Err(e);
            },
        }
        if !has_text(&normalized, packages[i].as_str()) {
            normalized.push(packages[i].clone());
        }
    }
    assert(all.take(n as int) =~= all);
    Ok(normalized)
}

// ---------------------------------------------------------------------------
// Managers
// ---------------------------------------------------------------------------

/// Whether an instance of this kind was found.
pub open spec fn is_found(instances: Seq<InstanceView>, kind: ManagerKind) -> bool {
    exists|i: int| 0 <= i < instances.len() && (#[trigger] instances[i]).kind == kind
}

/// The names of those of `requested` that were not found.
pub open spec fn missing_managers(
    instances: Seq<InstanceView>,
    requested: Seq<ManagerKind>,
) -> Seq<Seq<char>>
    decreases requested.len(),
{
    if requested.len() == 0 {
        Seq::empty()
    } else {
        let rest = missing_managers(instances, requested.drop_last());
        if is_found(instances, requested.last()) {
            rest
        } else {
            rest.push(manager_name(requested.last()))
        }
    }
}

pub open spec fn managers_verdict(
    instances: Seq<InstanceView>,
    requested: Seq<ManagerKind>,
) -> Result<(), ErrorView> {
    let missing = missing_managers(instances, requested);
    if instances.len() == 0 {
        Err(failure(ErrorKind::NoManagers, "no supported package managers were discovered"@))
    } else if missing.len() > 0 {
        Err(
            failure(
                ErrorKind::ManagersMissing,
                "requested manager(s) not found: "@ + join(missing, ", "@),
            ),
        )
    } else {
        Ok(())
    }
}

fn has_instance_of(instances: &Vec<ManagerInstance>, kind: ManagerKind) -> (r: bool)
    ensures
        r == is_found(views(instances@), kind),
{
    let n: usize = instances.len();
    for i in 0..n
        invariant
            n == instances@.len(),
            forall|j: int| 0 <= j < i ==> (#[trigger] views(instances@)[j]).kind != kind,
    {
        assert(views(instances@)[i as int] == instances@[i as int]@);
        if instances[i].kind == kind {
            return true;
        }
    }
    false
}

pub fn ensure_managers_found(instances: &Vec<ManagerInstance>, requested: &Vec<ManagerKind>) -> (r:
    Result<(), Error>)
    ensures
        verdict(r) == managers_verdict(views(instances@), requested@),
{
    assert(views(instances@).len() == instances@.len());
    if instances.len() == 0 {
        return Err(
            Error::new(ErrorKind::NoManagers, "no supported package managers were discovered"),
        );
    }
    let mut missing: Vec<String> = Vec::new();
    let n: usize = requested.len();
    assert(views(missing@) =~= missing_managers(views(instances@), requested@.take(0)));
    for i in 0..n
        invariant
            n == requested@.len(),
            views(missing@) == missing_managers(views(instances@), requested@.take(i as int)),
    {
        assert(requested@.take(i + 1).drop_last() =~= requested@.take(i as int));
        if !has_instance_of(instances, requested[i]) {
            missing.push(requested[i].name().to_owned());
        }
    }
    assert(requested@.take(n as int) =~= requested@);
    assert(views(missing@).len() == missing@.len());
    if missing.len() > 0 {
        return Err(
            Error::new(
                ErrorKind::ManagersMissing,
                cat2(
                    "requested manager(s) not found: ",
                    join_texts(&missing, ", ").as_str(),
                ).as_str(),
            ),
        );
    }
    Ok(())
}

// ---------------------------------------------------------------------------
// Targets
// ---------------------------------------------------------------------------

/// `targets` with those of `more` whose ids are new.
pub open spec fn with_new_targets(targets: Seq<TargetView>, more: Seq<TargetView>) -> Seq<TargetView>
    decreases more.len(),
{
    if more.len() == 0 {
        targets
    } else {
        let rest = with_new_targets(targets, more.drop_last());
        if has_target(rest, more.last().id) {
            rest
        } else {
            rest.push(more.last())
        }
    }
}

/// The context with the targets that only the instances know of, and whether a
/// manager is missing; the instances behind that one are not asked.
pub open spec fn with_instance_targets(
    adapters: Seq<Adapter>,
    host: HostView,
    instances: Seq<InstanceView>,
    context: ContextView,
) -> (ContextView, Result<(), ErrorView>)
    decreases instances.len(),
{
    if instances.len() == 0 {
        (context, Ok(()))
    } else {
        let before = with_instance_targets(adapters, host, instances.drop_last(), context);
        if before.1 is Err {
            before
        } else {
            match registered(adapters, instances.last().kind) {
                Err(e) => (before.0, Err(e)),
                Ok(adapter) => (
                    ContextView {
                        targets: with_new_targets(
                            before.0.targets,
                            adapter.targets(host, instances.last(), before.0),
                        ),
                        ..before.0
                    },
                    Ok(()),
                ),
            }
        }
    }
}

proof fn lemma_instance_targets_stop(
    adapters: Seq<Adapter>,
    host: HostView,
    instances: Seq<InstanceView>,
    context: ContextView,
    n: int,
)
    requires
        0 <= n <= instances.len(),
        with_instance_targets(adapters, host, instances.take(n), context).1 is Err,
    ensures
        with_instance_targets(adapters, host, instances, context) == with_instance_targets(
            adapters,
            host,
            instances.take(n),
            context,
        ),
    decreases instances.len() - n,
{
    if n < instances.len() {
        assert(instances.take(n + 1).drop_last() =~= instances.take(n));
        lemma_instance_targets_stop(adapters, host, instances, context, n + 1);
    } else {
        assert(instances.take(n) =~= instances);
    }
}

fn add_new_targets(targets: &mut Vec<Target>, more: &Vec<Target>)
    ensures
        views(final(targets)@) == with_new_targets(views(old(targets)@), views(more@)),
{
    let ghost start = views(targets@);
    let ghost all = views(more@);
    let n: usize = more.len();
    assert(views(targets@) =~= with_new_targets(start, all.take(0)));
    for i in 0..n
        invariant
            n == more@.len(),
            all == views(more@),
            views(targets@) == with_new_targets(start, all.take(i as int)),
    {
        proof {
            assert(all.take(i + 1).drop_last() =~= all.take(i as int));
            assert(all.take(i + 1).last() == more@[i as int]@);
        }
        if !has_target_id(targets, more[i].id.as_str()) {
            targets.push(more[i].clone());
        }
    }
    assert(all.take(n as int) =~= all);
}

/// Adds the targets that only the instances know of.
pub fn include_instance_targets(
    registry: &Registry,
    host: &Host,
    instances: &Vec<ManagerInstance>,
    context: &mut ProjectContext,
) -> (r: Result<(), Error>)
    ensures
        (final(context)@, verdict(r)) == with_instance_targets(
            registry@,
            host@,
            views(instances@),
            old(context)@,
        ),
{
    let ghost start = context@;
    let ghost all = views(instances@);
    let n: usize = instances.len();
    for i in 0..n
        invariant
            n == instances@.len(),
            all == views(instances@),
            start == old(context)@,
            with_instance_targets(registry@, host@, all.take(i as int), start) == (
                context@,
                Ok::<(), ErrorView>(()),
            ),
    {
        proof {
            assert(all.take(i + 1).drop_last() =~= all.take(i as int));
            assert(all.take(i + 1).last() == instances@[i as int]@);
        }
        let adapter = match registry.adapter(instances[i].kind) {
            Ok(adapter) => adapter,
            Err(e) => {
                proof {
                    lemma_instance_targets_stop(registry@, host@, all, start, i + 1);
                }
                return Err(e);
            },
        };
        let targets = adapter.compatible_targets(host, &instances[i], context);
        let ghost before = context@;
        add_new_targets(&mut context.targets, &targets);
        assert(context@ =~= ContextView {
            targets: with_new_targets(before.targets, views(targets@)),
            ..before
        });
    }
    assert(all.take(n as int) =~= all);
    Ok(())
}

// ---------------------------------------------------------------------------
// Installation
// ---------------------------------------------------------------------------

/// How the user asked for an installation.
#[derive(Debug)]
pub struct InstallOptions {
    pub managers: Vec<ManagerKind>,
    pub target: Option<String>,
    pub instance: Option<String>,
    pub dry_run: bool,
    pub yes: bool,
    /// Whether there is a terminal to ask the user at.
    pub interactive: bool,
}

#[verifier::ext_equal]
pub struct InstallOptionsView {
    pub managers: Seq<ManagerKind>,
    pub target: Option<Seq<char>>,
    pub instance: Option<Seq<char>>,
    pub dry_run: bool,
    pub yes: bool,
    pub interactive: bool,
}

impl View for InstallOptions {
    type V = InstallOptionsView;

    open spec fn view(&self) -> InstallOptionsView {
        InstallOptionsView {
            managers: self.managers@,
            target: option_view(self.target),
            instance: option_view(self.instance),
            dry_run: self.dry_run,
            yes: self.yes,
            interactive: self.interactive,
        }
    }
}

/// Whether the user is asked to choose. Where not, the choice has to be explicit.
pub open spec fn asks_user(options: InstallOptionsView, warnings: nat) -> Result<bool, ErrorView> {
    let prompts = options.interactive && !options.yes;
    if options.yes && warnings > 0 {
        Err(
            failure(
                ErrorKind::WarningsPresent,
                "refusing unattended selection because "@ + decimal(warnings)
                    + " discovery/search warning(s) occurred"@,
            ),
        )
    } else if !prompts && options.managers.len() == 0 {
        Err(
            failure(
                ErrorKind::ManagerRequired,
                "non-interactive installation requires --manager to make selection explicit"@,
            ),
        )
    } else if !prompts && options.target is None {
        Err(
            failure(
                ErrorKind::TargetRequired,
                "non-interactive installation requires --target; inspect ids with `mate doctor`"@,
            ),
        )
    } else {
        Ok(prompts)
    }
}

pub fn selection_mode(options: &InstallOptions, warnings: usize) -> (r: Result<bool, Error>)
    ensures
        match r {
            Ok(prompts) => asks_user(options@, warnings as nat) == Ok::<bool, ErrorView>(prompts),
            Err(e) => asks_user(options@, warnings as nat) == Err::<bool, ErrorView>(e@),
        },
{
    if options.yes && warnings > 0 {
        return Err(
            Error::new(
                ErrorKind::WarningsPresent,
                cat3(
                    "refusing unattended selection because ",
                    decimal_text(warnings).as_str(),
                    " discovery/search warning(s) occurred",
                ).as_str(),
            ),
        );
    }
    let prompts = options.interactive && !options.yes;
    if !prompts && options.managers.len() == 0 {
        return Err(
            Error::new(
                ErrorKind::ManagerRequired,
                "non-interactive installation requires --manager to make selection explicit",
            ),
        );
    }
    if !prompts && options.target.is_none() {
        return Err(
            Error::new(
                ErrorKind::TargetRequired,
                "non-interactive installation requires --target; inspect ids with `mate doctor`",
            ),
        );
    }
    Ok(prompts)
}

/// Whether the candidate is verified, and the very package that the query names.
pub open spec fn exactly_asked(selection: SelectionView) -> bool {
    selection.candidate.verified && (exact_match(selection.query, selection.candidate)
        || canonical_match(selection.query, selection.candidate))
}

/// What may be installed unseen is what assessing the candidate calls an unattended
/// exact match.
pub proof fn law_exactly_asked_means_unattended_exact(selection: SelectionView)
    ensures
        exactly_asked(selection) <==> unattended_exact(
            CandidateView {
                match_kind: assessment(selection.query, selection.candidate).kind,
                score: assessment(selection.query, selection.candidate).score,
                ..selection.candidate
            },
        ),
{
    law_exact_means_identity(selection.query, selection.candidate);
}

pub open spec fn not_exact(selection: SelectionView) -> ErrorView {
    failure(
        ErrorKind::NotExact,
        concat(
            seq![
                "--yes accepts only exact matches, but "@,
                debug_text(selection.query),
                " led to "@,
                manager_name(selection.candidate.manager),
                ":"@,
                brief(selection.candidate.package),
                "; name that package or run interactively"@,
            ],
        ),
    )
}

/// Refuses the first selection that is not exactly what was asked for.
pub open spec fn exactness(selections: Seq<SelectionView>) -> Result<(), ErrorView>
    decreases selections.len(),
{
    if selections.len() == 0 {
        Ok(())
    } else {
        match exactness(selections.drop_last()) {
            Err(e) => Err(e),
            Ok(_) => if exactly_asked(selections.last()) {
                Ok(())
            } else {
                Err(not_exact(selections.last()))
            },
        }
    }
}

proof fn lemma_exactness_stops(selections: Seq<SelectionView>, n: int)
    requires
        0 <= n <= selections.len(),
        exactness(selections.take(n)) is Err,
    ensures
        exactness(selections) == exactness(selections.take(n)),
    decreases selections.len() - n,
{
    if n < selections.len() {
        assert(selections.take(n + 1).drop_last() =~= selections.take(n));
        lemma_exactness_stops(selections, n + 1);
    } else {
        assert(selections.take(n) =~= selections);
    }
}

/// Refuses the first selection that is not exactly what was asked for.
pub fn ensure_exact(selections: &Vec<Selection>) -> (r: Result<(), Error>)
    ensures
        verdict(r) == exactness(views(selections@)),
{
    let ghost all = views(selections@);
    let n: usize = selections.len();
    for i in 0..n
        invariant
            n == selections@.len(),
            all == views(selections@),
            exactness(all.take(i as int)) == Ok::<(), ErrorView>(()),
    {
        proof {
            assert(all.take(i + 1).drop_last() =~= all.take(i as int));
            assert(all.take(i + 1).last() == selections@[i as int]@);
        }
        let selection = &selections[i];
        let identity = assess_identity(selection.query.as_str(), &selection.candidate);
        if !selection.candidate.verified || identity.is_none() {
            let quoted = debug_quoted(selection.query.as_str());
            let package = terminal_safe(selection.candidate.package.as_str());
            let parts = list_of(
                &[
                    "--yes accepts only exact matches, but ",
                    quoted.as_str(),
                    " led to ",
                    selection.candidate.manager.name(),
                    ":",
                    package.as_str(),
                    "; name that package or run interactively",
                ],
            );
            proof {
                assert(views(parts@) =~= seq![
                    "--yes accepts only exact matches, but "@,
                    quoted@,
                    " led to "@,
                    manager_name(selection@.candidate.manager),
                    ":"@,
                    package@,
                    "; name that package or run interactively"@,
                ]);
                lemma_exactness_stops(all, i + 1);
            }
            return Err(Error::new(ErrorKind::NotExact, concat_texts(&parts).as_str()));
        }
    }
    assert(all.take(n as int) =~= all);
    Ok(())
}

/// What an installation is decided on.
pub struct InstallRequest<'a> {
    pub registry: &'a Registry,
    pub host: &'a Host,
    pub context: &'a ProjectContext,
    pub instances: &'a Vec<ManagerInstance>,
    pub packages: &'a Vec<String>,
    pub candidates: &'a Vec<Candidate>,
    pub warnings: &'a Vec<String>,
    pub options: &'a InstallOptions,
}

#[verifier::ext_equal]
pub struct InstallView {
    pub adapters: Seq<Adapter>,
    pub host: HostView,
    pub context: ContextView,
    pub instances: Seq<InstanceView>,
    pub packages: Seq<Seq<char>>,
    pub candidates: Seq<CandidateView>,
    pub warnings: nat,
    pub options: InstallOptionsView,
}

impl<'a> View for InstallRequest<'a> {
    type V = InstallView;

    open spec fn view(&self) -> InstallView {
        InstallView {
            adapters: self.registry@,
            host: self.host@,
            context: self.context@,
            instances: views(self.instances@),
            packages: views(self.packages@),
            candidates: views(self.candidates@),
            warnings: self.warnings@.len(),
            options: self.options@,
        }
    }
}

/// What there is to choose from.
pub open spec fn choices(install: InstallView, prompts: bool) -> RequestOptions {
    RequestOptions {
        adapters: install.adapters,
        host: install.host,
        context: install.context,
        instances: install.instances,
        queries: install.packages,
        candidates: install.candidates,
        target_override: install.options.target,
        instance_override: install.options.instance,
        allow_prompts: prompts,
    }
}

/// What the plan is made with.
pub open spec fn plan_setting(install: InstallView) -> Setting {
    Setting {
        host: install.host,
        adapters: install.adapters,
        instances: install.instances,
        context: install.context,
    }
}

/// What is to be done next.
#[derive(Debug)]
pub enum InstallStep {
    /// Put this question to the user.
    Ask(Prompt),
    /// Show the plan and stop.
    Preview(InstallPlan),
    /// Show the plan and have it confirmed.
    Confirm(InstallPlan),
    /// Show the plan and fail.
    Refuse(InstallPlan, Error),
    /// Nothing is installed.
    Cancel,
    /// Run the plan.
    Execute(InstallPlan),
}

pub enum InstallStepView {
    Ask(PromptView),
    Preview(PlanView),
    Confirm(PlanView),
    Refuse(PlanView, ErrorView),
    Cancel,
    Execute(PlanView),
}

impl View for InstallStep {
    type V = InstallStepView;

    open spec fn view(&self) -> InstallStepView {
        match self {
            InstallStep::Ask(prompt) => InstallStepView::Ask(prompt@),
            InstallStep::Preview(plan) => InstallStepView::Preview(plan@),
            InstallStep::Confirm(plan) => InstallStepView::Confirm(plan@),
            InstallStep::Refuse(plan, e) => InstallStepView::Refuse(plan@, e@),
            InstallStep::Cancel => InstallStepView::Cancel,
            InstallStep::Execute(plan) => InstallStepView::Execute(plan@),
        }
    }
}

pub open spec fn cannot_confirm() -> ErrorView {
    failure(
        ErrorKind::CannotConfirm,
        "cannot confirm outside an interactive terminal; pass --yes only after reviewing a dry run"@,
    )
}

/// What is done with a plan: it runs if the user confirmed it, or if they said so
/// beforehand.
pub open spec fn plan_step(
    options: InstallOptionsView,
    plan: PlanView,
    confirmation: Option<bool>,
) -> InstallStepView {
    if options.dry_run {
        InstallStepView::Preview(plan)
    } else if options.yes {
        InstallStepView::Execute(plan)
    } else if !options.interactive {
        InstallStepView::Refuse(plan, cannot_confirm())
    } else {
        match confirmation {
            None => InstallStepView::Confirm(plan),
            Some(true) => InstallStepView::Execute(plan),
            Some(false) => InstallStepView::Cancel,
        }
    }
}

/// What is to be done next, given the answers so far.
pub open spec fn install_step(
    install: InstallView,
    answers: Seq<usize>,
    confirmation: Option<bool>,
) -> Result<InstallStepView, ErrorView> {
    match asks_user(install.options, install.warnings) {
        Err(e) => Err(e),
        Ok(prompts) => match selections(choices(install, prompts), install.packages, answers) {
            Err(e) => Err(e),
            Ok(PickView::Ask(prompt)) => Ok(InstallStepView::Ask(prompt)),
            Ok(PickView::Chosen(list, _)) => {
                let exact = if install.options.yes {
                    exactness(list)
                } else {
                    Ok(())
                };
                match exact {
                    Err(e) => Err(e),
                    Ok(_) => match plan_of(plan_setting(install), list) {
                        Err(e) => Err(e),
                        Ok(plan) => Ok(plan_step(install.options, plan, confirmation)),
                    },
                }
            },
        },
    }
}

/// Decides what is to be done next. Where the user has to choose or to confirm,
/// that is handed back: call again with the answer.
pub fn install(request: InstallRequest, answers: &Vec<usize>, confirmation: Option<bool>) -> (r:
    Result<InstallStep, Error>)
    ensures
        outcome(r) == install_step(request@, answers@, confirmation),
{
    let ghost view = request@;
    let options = request.options;
    let prompts = match selection_mode(options, request.warnings.len()) {
        Ok(prompts) => prompts,
        Err(e) => {
            return Err(e);
        },
    };
    let target_override = match &options.target {
        Some(target) => Some(target.as_str()),
        None => None,
    };
    let instance_override = match &options.instance {
        Some(instance) => Some(instance.as_str()),
        None => None,
    };
    let choice = SelectionRequest {
        registry: request.registry,
        host: request.host,
        context: request.context,
        instances: request.instances,
        queries: request.packages,
        candidates: request.candidates,
        target_override,
        instance_override,
        allow_prompts: prompts,
    };
    assert(choice@ =~= choices(view, prompts));
    let list = match select_installations(choice, answers) {
        Ok(SelectionOutcome::Chosen(list)) => list,
        Ok(SelectionOutcome::Ask(prompt)) => {
            return Ok(InstallStep::Ask(prompt));
        },
        Err(e) => {
            return Err(e);
        },
    };
    if options.yes {
        match ensure_exact(&list) {
            Ok(_) => {},
            Err(e) => {
                return Err(e);
            },
        }
    }
    let plan = match build_plan(
        request.registry,
        request.host,
        request.instances,
        list,
        request.context,
    ) {
        Ok(plan) => plan,
        Err(e) => {
            return Err(e);
        },
    };
    if options.dry_run {
        return Ok(InstallStep::Preview(plan));
    }
    if options.yes {
        return Ok(InstallStep::Execute(plan));
    }
    if !options.interactive {
        return Ok(
            InstallStep::Refuse(
                plan,
                Error::new(
                    ErrorKind::CannotConfirm,
                    "cannot confirm outside an interactive terminal; pass --yes only after reviewing a dry run",
                ),
            ),
        );
    }
    match confirmation {
        None => Ok(InstallStep::Confirm(plan)),
        Some(true) => Ok(InstallStep::Execute(plan)),
        Some(false) => Ok(InstallStep::Cancel),
    }
}

// ---------------------------------------------------------------------------
// Laws
// ---------------------------------------------------------------------------

proof fn lemma_queries_verdict(packages: Seq<Seq<char>>, i: int)
    requires
        queries_verdict(packages) is Ok,
        0 <= i < packages.len(),
    ensures
        query_verdict(packages[i]) is Ok,
    decreases packages.len(),
{
    if i < packages.len() - 1 {
        assert(packages.drop_last()[i] == packages[i]);
        lemma_queries_verdict(packages.drop_last(), i);
    }
}

/// What is searched for are the queries that were given, each once and each valid,
/// and not more than one call may ask for.
pub proof fn law_normalized_packages(packages: Seq<Seq<char>>)
    ensures
        normalized_packages(packages) matches Ok(list) ==> {
            &&& list.len() <= MAX_PACKAGES
            &&& list.no_duplicates()
            &&& forall|q: Seq<char>| #[trigger] list.contains(q) <==> packages.contains(q)
            &&& forall|q: Seq<char>| #[trigger] list.contains(q) ==> query_verdict(q) is Ok
        },
{
    if normalized_packages(packages) is Ok {
        lemma_distinct(packages);
        assert forall|q: Seq<char>| #[trigger] distinct(packages).contains(q) implies query_verdict(
            q,
        ) is Ok by {
            assert(packages.contains(q));
            let i = choose|i: int| 0 <= i < packages.len() && packages[i] == q;
            lemma_queries_verdict(packages, i);
        }
    }
}

/// Normalizing once is enough.
pub proof fn law_normalizing_is_stable(packages: Seq<Seq<char>>)
    ensures
        normalized_packages(packages) matches Ok(list) ==> normalized_packages(list) == Ok::<
            Seq<Seq<char>>,
            ErrorView,
        >(list),
{
    if let Ok(list) = normalized_packages(packages) {
        law_normalized_packages(packages);
        assert forall|i: int| 0 <= i < list.len() implies query_verdict(#[trigger] list[i]) is Ok by {
            assert(list.contains(list[i]));
        }
        lemma_valid_queries(list);
        lemma_distinct_stays(list);
    }
}

proof fn lemma_valid_queries(list: Seq<Seq<char>>)
    requires
        forall|i: int| 0 <= i < list.len() ==> query_verdict(#[trigger] list[i]) is Ok,
    ensures
        queries_verdict(list) == Ok::<(), ErrorView>(()),
    decreases list.len(),
{
    if list.len() > 0 {
        let rest = list.drop_last();
        assert forall|i: int| 0 <= i < rest.len() implies query_verdict(#[trigger] rest[i]) is Ok by {
            assert(rest[i] == list[i]);
        }
        lemma_valid_queries(rest);
        assert(query_verdict(list[list.len() - 1]) is Ok);
    }
}

proof fn lemma_distinct_stays<T>(list: Seq<T>)
    requires
        list.no_duplicates(),
    ensures
        distinct(list) == list,
    decreases list.len(),
{
    if list.len() > 0 {
        let rest = list.drop_last();
        assert(rest.no_duplicates());
        lemma_distinct_stays(rest);
        assert(!rest.contains(list.last()));
        assert(rest.push(list.last()) =~= list);
    } else {
        assert(distinct(list) =~= list);
    }
}

/// Targets that instances add come behind those that were known, and no two of
/// what they add have one id.
pub proof fn law_known_targets_stay(targets: Seq<TargetView>, more: Seq<TargetView>)
    ensures
        targets.is_prefix_of(with_new_targets(targets, more)),
        forall|i: int|
            0 <= i < more.len() ==> has_target(
                with_new_targets(targets, more),
                (#[trigger] more[i]).id,
            ),
        forall|i: int, j: int|
            0 <= i < j < with_new_targets(targets, more).len() && targets.len() <= j ==> (
            #[trigger] with_new_targets(targets, more)[i]).id != (#[trigger] with_new_targets(
                targets,
                more,
            )[j]).id,
    decreases more.len(),
{
    if more.len() > 0 {
        let rest = more.drop_last();
        let before = with_new_targets(targets, rest);
        let all = with_new_targets(targets, more);
        law_known_targets_stay(targets, rest);
        assert forall|i: int| 0 <= i < more.len() implies has_target(all, (#[trigger] more[i]).id) by {
            if i < rest.len() {
                assert(has_target(before, rest[i].id));
                let k = choose|k: int|
                    0 <= k < before.len() && (#[trigger] before[k]).id == rest[i].id;
                assert(all[k].id == more[i].id);
            } else if !has_target(before, more.last().id) {
                assert(all[before.len() as int].id == more[i].id);
            }
        }
        assert forall|i: int, j: int| 0 <= i < j < all.len() && targets.len() <= j implies (
        #[trigger] all[i]).id != (#[trigger] all[j]).id by {
            assert(all[i] == before[i]);
            if j < before.len() {
                assert(all[j] == before[j]);
            }
        }
    }
}

proof fn lemma_exactness(selections: Seq<SelectionView>, i: int)
    requires
        exactness(selections) is Ok,
        0 <= i < selections.len(),
    ensures
        exactly_asked(selections[i]),
    decreases selections.len(),
{
    if i < selections.len() - 1 {
        assert(selections.drop_last()[i] == selections[i]);
        lemma_exactness(selections.drop_last(), i);
    }
}

/// A plan runs only if it is no dry run and the user confirmed it at a terminal, or
/// said so beforehand. What runs is the plan for one allowed selection per query.
pub proof fn law_only_confirmed_plans_run(
    install: InstallView,
    answers: Seq<usize>,
    confirmation: Option<bool>,
    plan: PlanView,
)
    requires
        install_step(install, answers, confirmation) == Ok::<InstallStepView, ErrorView>(
            InstallStepView::Execute(plan),
        ),
    ensures
        !install.options.dry_run,
        install.options.yes || (install.options.interactive && confirmation == Some(true)),
        plan_of(plan_setting(install), plan.selections) == Ok::<PlanView, ErrorView>(plan),
        plan.selections.len() == install.packages.len(),
        forall|i: int|
            0 <= i < plan.selections.len() ==> (#[trigger] plan.selections[i]).query
                == install.packages[i] && allowed(
                choices(install, install.options.interactive && !install.options.yes),
                plan.selections[i],
            ),
{
    let prompts = install.options.interactive && !install.options.yes;
    law_selections_are_allowed(choices(install, prompts), install.packages, answers);
}

/// What was not asked for exactly is never accepted beforehand: a plan that is made
/// with `--yes`, be it to run or to look at, holds nothing but verified packages
/// that the queries name, was made without a warning, and names the managers and
/// the target.
pub proof fn law_yes_takes_exact_matches_only(
    install: InstallView,
    answers: Seq<usize>,
    confirmation: Option<bool>,
    plan: PlanView,
)
    requires
        install.options.yes,
        install_step(install, answers, confirmation) == Ok::<InstallStepView, ErrorView>(
            InstallStepView::Execute(plan),
        ) || install_step(install, answers, confirmation) == Ok::<InstallStepView, ErrorView>(
            InstallStepView::Preview(plan),
        ),
    ensures
        install.warnings == 0,
        install.options.managers.len() > 0,
        install.options.target is Some,
        forall|i: int|
            0 <= i < plan.selections.len() ==> exactly_asked(#[trigger] plan.selections[i]),
{
    assert forall|i: int| 0 <= i < plan.selections.len() implies exactly_asked(
        #[trigger] plan.selections[i],
    ) by {
        lemma_exactness(plan.selections, i);
    }
}

/// Nothing is asked with `--yes` or where there is no terminal.
pub proof fn law_unattended_installation_never_asks(
    install: InstallView,
    answers: Seq<usize>,
    confirmation: Option<bool>,
)
    requires
        install.options.yes || !install.options.interactive,
    ensures
        !(install_step(install, answers, confirmation) matches Ok(InstallStepView::Ask(_))),
        !(install_step(install, answers, confirmation) matches Ok(InstallStepView::Confirm(_))),
        install_step(install, answers, confirmation) == install_step(
            install,
            Seq::empty(),
            None,
        ),
{
    law_unattended_selection_never_asks(choices(install, false), install.packages, answers);
}

/// A dry run ends with the plan, whatever is answered.
pub proof fn law_dry_run_never_installs(
    install: InstallView,
    answers: Seq<usize>,
    confirmation: Option<bool>,
)
    requires
        install.options.dry_run,
    ensures
        install_step(install, answers, confirmation) matches Ok(step) ==> (step is Ask || step
            is Preview),
{
}

/// A batch is taken if and only if it holds at most sixty-four queries, each of which can
/// be asked; each query is then asked once, in the order in which they first came.
pub proof fn law_batch_is_taken_whole(packages: Seq<Seq<char>>)
    ensures
        packages.len() > 64 ==> (normalized_packages(packages) matches Err(e) && e.kind
            == ErrorKind::TooManyPackages),
        packages.len() <= 64 ==> (normalized_packages(packages) is Ok <==> forall|i: int|
            0 <= i < packages.len() ==> query_verdict(#[trigger] packages[i]) is Ok),
        normalized_packages(packages) matches Ok(list) ==> list == distinct(packages),
{
    if packages.len() <= 64 {
        if normalized_packages(packages) is Ok {
            assert forall|i: int| 0 <= i < packages.len() implies query_verdict(
                #[trigger] packages[i],
            ) is Ok by {
                lemma_queries_verdict(packages, i);
            }
        }
        if forall|i: int| 0 <= i < packages.len() ==> query_verdict(#[trigger] packages[i]) is Ok {
            lemma_valid_queries(packages);
        }
    }
}

/// Managers that were asked for have to be there: there is an error if and only if no
/// instance was found at all, or none of some manager that was named.
pub proof fn law_missing_managers_are_refused(
    instances: Seq<InstanceView>,
    requested: Seq<ManagerKind>,
)
    ensures
        instances.len() == 0 ==> (managers_verdict(instances, requested) matches Err(e) && e.kind
            == ErrorKind::NoManagers),
        instances.len() > 0 ==> (managers_verdict(instances, requested) is Ok <==> forall|i: int|
            0 <= i < requested.len() ==> exists|k: int|
                0 <= k < instances.len() && (#[trigger] instances[k]).kind
                    == #[trigger] requested[i]),
        instances.len() > 0 ==> (managers_verdict(instances, requested) matches Err(e) ==> e.kind
            == ErrorKind::ManagersMissing),
{
    lemma_missing(instances, requested);
    assert forall|i: int| 0 <= i < requested.len() implies (is_found(
        instances,
        #[trigger] requested[i],
    ) <==> exists|k: int| 0 <= k < instances.len() && (#[trigger] instances[k]).kind
        == requested[i]) by {}
}

proof fn lemma_missing(instances: Seq<InstanceView>, requested: Seq<ManagerKind>)
    ensures
        missing_managers(instances, requested).len() == 0 <==> forall|i: int|
            0 <= i < requested.len() ==> is_found(instances, #[trigger] requested[i]),
    decreases requested.len(),
{
    if requested.len() > 0 {
        let rest = requested.drop_last();
        lemma_missing(instances, rest);
        if missing_managers(instances, requested).len() == 0 {
            assert forall|i: int| 0 <= i < requested.len() implies is_found(
                instances,
                #[trigger] requested[i],
            ) by {
                if i < rest.len() {
                    assert(rest[i] == requested[i]);
                }
            }
        }
        if forall|i: int| 0 <= i < requested.len() ==> is_found(instances, #[trigger] requested[i]) {
            assert forall|i: int| 0 <= i < rest.len() implies is_found(
                instances,
                #[trigger] rest[i],
            ) by {
                assert(rest[i] == requested[i]);
            }
            assert(is_found(instances, requested[requested.len() - 1]));
        }
    }
}

/// Whether `after` begins with the targets `before` and goes on with some of `new`, so that
/// each of `new` is there by its id.
pub open spec fn targets_added(
    before: Seq<TargetView>,
    new: Seq<TargetView>,
    after: Seq<TargetView>,
) -> bool {
    &&& before.is_prefix_of(after)
    &&& forall|i: int| 0 <= i < new.len() ==> has_target(after, (#[trigger] new[i]).id)
    &&& forall|k: int| before.len() <= k < after.len() ==> new.contains(#[trigger] after[k])
}

/// The instances of a machine add their own targets to the context, one after the other:
/// each target whose id is new, behind those that are known. Nothing else changes; a
/// manager that is not known ends this.
pub proof fn law_instances_add_their_targets(
    adapters: Seq<Adapter>,
    host: HostView,
    instances: Seq<InstanceView>,
    more: InstanceView,
    context: ContextView,
)
    ensures
        with_instance_targets(adapters, host, Seq::empty(), context) == (
            context,
            Ok::<(), ErrorView>(()),
        ),
        ({
            let before = with_instance_targets(adapters, host, instances, context);
            let after = with_instance_targets(adapters, host, instances.push(more), context);
            &&& before.1 is Err ==> after == before
            &&& before.1 is Ok ==> match registered(adapters, more.kind) {
                Err(e) => after.0 == before.0 && after.1 == Err::<(), ErrorView>(e),
                Ok(adapter) => {
                    let new = adapter.targets(host, more, before.0);
                    &&& after.1 is Ok
                    &&& after.0.cwd == before.0.cwd
                    &&& after.0.project_root == before.0.project_root
                    &&& after.0.workspace_root == before.0.workspace_root
                    &&& after.0.markers == before.0.markers
                    &&& targets_added(before.0.targets, new, after.0.targets)
                },
            }
        }),
{
    assert(instances.push(more).drop_last() =~= instances);
    let before = with_instance_targets(adapters, host, instances, context);
    if let Ok(adapter) = registered(adapters, more.kind) {
        let new = adapter.targets(host, more, before.0);
        law_known_targets_stay(before.0.targets, new);
        lemma_only_new_targets(before.0.targets, new);
        assert(targets_added(before.0.targets, new, with_new_targets(before.0.targets, new)));
    }
}

proof fn lemma_only_new_targets(targets: Seq<TargetView>, more: Seq<TargetView>)
    ensures
        with_new_targets(targets, more).len() >= targets.len(),
        forall|k: int|
            targets.len() <= k < with_new_targets(targets, more).len() ==> more.contains(
                #[trigger] with_new_targets(targets, more)[k],
            ),
    decreases more.len(),
{
    if more.len() > 0 {
        let rest = more.drop_last();
        lemma_only_new_targets(targets, rest);
        let before = with_new_targets(targets, rest);
        let after = with_new_targets(targets, more);
        assert forall|k: int| targets.len() <= k < after.len() implies more.contains(
            #[trigger] after[k],
        ) by {
            if k < before.len() {
                assert(after[k] == before[k]);
                let m = choose|m: int| 0 <= m < rest.len() && rest[m] == before[k];
                assert(more[m] == after[k]);
            } else {
                assert(more[more.len() - 1] == after[k]);
            }
        }
    }
}

/// The user is asked if there is a terminal and they did not say `--yes`. Where they are
/// not asked, managers and target have to be named; and `--yes` bears no warning.
pub proof fn law_unattended_choice_is_explicit(options: InstallOptionsView, warnings: nat)
    ensures
        ({
            let r = asks_user(options, warnings);
            let prompts = options.interactive && !options.yes;
            &&& options.yes && warnings > 0 ==> (r matches Err(e) && e.kind
                == ErrorKind::WarningsPresent)
            &&& !(options.yes && warnings > 0) && !prompts && options.managers.len() == 0 ==> (
            r matches Err(e) && e.kind == ErrorKind::ManagerRequired)
            &&& !(options.yes && warnings > 0) && !prompts && options.managers.len() > 0
                && options.target is None ==> (r matches Err(e) && e.kind
                == ErrorKind::TargetRequired)
            &&& !(options.yes && warnings > 0) && (prompts || (options.managers.len() > 0
                && options.target is Some)) ==> r == Ok::<bool, ErrorView>(prompts)
        }),
{
}

/// What happens to a plan: in a dry run it is shown; with `--yes` it runs; without a
/// terminal it is refused; otherwise it runs if it is confirmed, is given up if that is
/// denied, and is put to the user if nothing was said yet.
pub proof fn law_plan_runs_once_confirmed(
    install: InstallView,
    answers: Seq<usize>,
    confirmation: Option<bool>,
    list: Seq<SelectionView>,
    used: nat,
    plan: PlanView,
)
    requires
        asks_user(install.options, install.warnings) is Ok,
        selections(
            choices(install, install.options.interactive && !install.options.yes),
            install.packages,
            answers,
        ) == Ok::<_, ErrorView>(PickView::Chosen(list, used)),
        install.options.yes ==> forall|i: int|
            0 <= i < list.len() ==> (#[trigger] list[i]).candidate.verified && (exact_match(
                list[i].query,
                list[i].candidate,
            ) || canonical_match(list[i].query, list[i].candidate)),
        plan_of(plan_setting(install), list) == Ok::<PlanView, ErrorView>(plan),
    ensures
        ({
            let step = install_step(install, answers, confirmation);
            let options = install.options;
            &&& step is Ok
            &&& options.dry_run ==> step->Ok_0 == InstallStepView::Preview(plan)
            &&& !options.dry_run && options.yes ==> step->Ok_0 == InstallStepView::Execute(plan)
            &&& !options.dry_run && !options.yes && !options.interactive ==> (
            step->Ok_0 matches InstallStepView::Refuse(shown, e) && shown == plan && e.kind
                == ErrorKind::CannotConfirm)
            &&& !options.dry_run && !options.yes && options.interactive ==> step->Ok_0
                == match confirmation {
                None => InstallStepView::Confirm(plan),
                Some(true) => InstallStepView::Execute(plan),
                Some(false) => InstallStepView::Cancel,
            }
        }),
{
    if install.options.yes {
        lemma_all_exact(list);
    }
}

proof fn lemma_all_exact(list: Seq<SelectionView>)
    requires
        forall|i: int| 0 <= i < list.len() ==> exactly_asked(#[trigger] list[i]),
    ensures
        exactness(list) == Ok::<(), ErrorView>(()),
    decreases list.len(),
{
    if list.len() > 0 {
        let rest = list.drop_last();
        assert forall|i: int| 0 <= i < rest.len() implies exactly_asked(#[trigger] rest[i]) by {
            assert(rest[i] == list[i]);
        }
        lemma_all_exact(rest);
        assert(exactly_asked(list[list.len() - 1]));
    }
}

/// What goes wrong on the way to a plan is told: first what asking runs into, then what
/// choosing runs into, then with `--yes` a choice that is not exact, then what planning
/// runs into. A question that has no answer yet is asked.
pub proof fn law_installation_goes_step_by_step(
    install: InstallView,
    answers: Seq<usize>,
    confirmation: Option<bool>,
)
    ensures
        ({
            let prompts = install.options.interactive && !install.options.yes;
            let step = install_step(install, answers, confirmation);
            let choice = selections(choices(install, prompts), install.packages, answers);
            &&& asks_user(install.options, install.warnings) matches Err(e) ==> step == Err::<
                InstallStepView,
                ErrorView,
            >(e)
            &&& asks_user(install.options, install.warnings) is Ok ==> {
                &&& choice matches Err(e) ==> step == Err::<InstallStepView, ErrorView>(e)
                &&& choice matches Ok(PickView::Ask(prompt)) ==> step == Ok::<
                    InstallStepView,
                    ErrorView,
                >(InstallStepView::Ask(prompt))
                &&& choice matches Ok(PickView::Chosen(list, _)) ==> {
                    &&& install.options.yes && (exists|i: int|
                        0 <= i < list.len() && !exactly_asked(#[trigger] list[i])) ==> (
                    step matches Err(e) && e.kind == ErrorKind::NotExact)
                    &&& !install.options.yes ==> (plan_of(
                        plan_setting(install),
                        list,
                    ) matches Err(e) ==> step == Err::<InstallStepView, ErrorView>(e))
                }
            }
        }),
{
    let prompts = install.options.interactive && !install.options.yes;
    if let Ok(PickView::Chosen(list, _)) = selections(
        choices(install, prompts),
        install.packages,
        answers,
    ) {
        if exists|i: int| 0 <= i < list.len() && !exactly_asked(#[trigger] list[i]) {
            let i = choose|i: int| 0 <= i < list.len() && !exactly_asked(#[trigger] list[i]);
            if exactness(list) is Ok {
                lemma_exactness(list, i);
            }
            lemma_exactness_kind(list);
        }
    }
}

proof fn lemma_exactness_kind(list: Seq<SelectionView>)
    ensures
        exactness(list) matches Err(e) ==> e.kind == ErrorKind::NotExact,
    decreases list.len(),
{
    if list.len() > 0 {
        lemma_exactness_kind(list.drop_last());
    }
}

/// A choice is made, and a plan is made of it, with all that the installation knows and
/// with what the user named.
pub proof fn law_choice_uses_what_is_known(install: InstallView, prompts: bool)
    ensures
        ({
            let request = choices(install, prompts);
            &&& request.adapters == install.adapters
            &&& request.host == install.host
            &&& request.context == install.context
            &&& request.instances == install.instances
            &&& request.queries == install.packages
            &&& request.candidates == install.candidates
            &&& request.target_override == install.options.target
            &&& request.instance_override == install.options.instance
            &&& request.allow_prompts == prompts
        }),
        ({
            let setting = plan_setting(install);
            &&& setting.adapters == install.adapters
            &&& setting.host == install.host
            &&& setting.context == install.context
            &&& setting.instances == install.instances
        }),
{
}

} // verus!
