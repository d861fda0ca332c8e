//! The order in which a confirmed plan is carried out.
//!
//! The plan is carried out by a machine of states: it says what to do next, and
//! is told what came of it.

use vstd::prelude::*;

use crate::error::{Error, ErrorKind, ErrorView, failure, verdict};
use crate::model::{CommandSpec, CommandView, shown_command};
use crate::path::{clone_option_path, FilePath, path_text, Platform, PathView};
use crate::platform::key_has_prefix;
use crate::process::{
    caused, changed, ChangeView, diagnostic, EnvChange, environment_changes,
    law_step_environment_is_sanitized, lemma_last_setting_counts, removals, safe_diagnostic,
    step_environment,
};
use crate::text::{
    cat2, cat3, cat4, concat, concat_texts, decimal, decimal_text, option_view, views,
};

verus! {

/// Refuses to go on as the superuser.
pub open spec fn unprivileged(root: bool) -> Result<(), ErrorView> {
    if root {
        Err(
            failure(
                ErrorKind::RootRefused,
                "mate must not run as root; run it as the target user and let mate elevate only confirmed system-package steps"@,
            ),
        )
    } else {
        Ok(())
    }
}

pub fn ensure_unprivileged(root: bool) -> (r: Result<(), Error>)
    ensures
        verdict(r) == unprivileged(root),
{
    if root {
        return Err(
            Error::new(
                ErrorKind::RootRefused,
                "mate must not run as root; run it as the target user and let mate elevate only confirmed system-package steps",
            ),
        );
    }
    Ok(())
}

// ---------------------------------------------------------------------------
// Guards
// ---------------------------------------------------------------------------

pub open spec fn path_appeared(path: PathView) -> ErrorView {
    failure(
        ErrorKind::PathAppeared,
        "plan precondition changed: "@ + diagnostic(path_text(path))
            + " now exists; refusing to create or overwrite it"@,
    )
}

/// Whether a step may go on, given whether anything exists at the path that must
/// not.
pub open spec fn guard(step: CommandView, entry_exists: bool) -> Result<(), ErrorView> {
    if step.must_not_exist is Some && entry_exists {
        Err(path_appeared(step.must_not_exist->0))
    } else {
        Ok(())
    }
}

pub fn verify_preconditions(step: &CommandSpec, entry_exists: bool) -> (r: Result<(), Error>)
    ensures
        verdict(r) == guard(step@, entry_exists),
{
    if let Some(path) = &step.must_not_exist {
        if entry_exists {
            return Err(
                Error::new(
                    ErrorKind::PathAppeared,
                    cat3(
                        "plan precondition changed: ",
                        safe_diagnostic(path.text().as_str()).as_str(),
                        " now exists; refusing to create or overwrite it",
                    ).as_str(),
                ),
            );
        }
    }
    Ok(())
}

/// What the guards of all steps say; the first that fails counts.
pub open spec fn all_guards(steps: Seq<CommandView>, entries: Seq<bool>) -> Result<(), ErrorView>
    decreases steps.len(),
{
    if steps.len() == 0 {
        Ok(())
    } else {
        match all_guards(steps.drop_last(), entries) {
            Err(e) => Err(e),
            Ok(_) => guard(steps.last(), entries[steps.len() - 1]),
        }
    }
}

proof fn lemma_all_guards_stop(steps: Seq<CommandView>, entries: Seq<bool>, n: int)
    requires
        0 <= n <= steps.len(),
        all_guards(steps.take(n), entries) is Err,
    ensures
        all_guards(steps, entries) == all_guards(steps.take(n), entries),
    decreases steps.len() - n,
{
    if n < steps.len() {
        assert(steps.take(n + 1).drop_last() =~= steps.take(n));
        lemma_all_guards_stop(steps, entries, n + 1);
    } else {
        assert(steps.take(n) =~= steps);
    }
}

fn verify_all(steps: &Vec<CommandSpec>, entries: &Vec<bool>) -> (r: Result<(), Error>)
    requires
        entries@.len() == steps@.len(),
    ensures
        verdict(r) == all_guards(views(steps@), entries@),
{
    let ghost all = views(steps@);
    let n: usize = steps.len();
    for i in 0..n
        invariant
            n == steps@.len(),
            entries@.len() == n,
            all == views(steps@),
            all_guards(all.take(i as int), entries@) == Ok::<(), ErrorView>(()),
    {
        proof {
            assert(all.take(i + 1).drop_last() =~= all.take(i as int));
            assert(all.take(i + 1).last() == steps@[i as int]@);
        }
        match verify_preconditions(&steps[i], entries[i]) {
            Ok(_) => {},
            Err(e) => {
                proof {
                    lemma_all_guards_stop(all, entries@, i + 1);
                }
                return Err(e);
            },
        }
    }
    assert(all.take(n as int) =~= all);
    Ok(())
}

// ---------------------------------------------------------------------------
// Launches
// ---------------------------------------------------------------------------

/// An argument that a program is started with.
#[derive(Debug, PartialEq, Eq)]
pub enum LaunchArg {
    Text(String),
    Path(FilePath),
}

pub enum ArgView {
    Text(Seq<char>),
    Path(PathView),
}

impl View for LaunchArg {
    type V = ArgView;

    open spec fn view(&self) -> ArgView {
        match self {
            LaunchArg::Text(text) => ArgView::Text(text@),
            LaunchArg::Path(path) => ArgView::Path(path@),
        }
    }
}

/// Arguments that are all texts.
pub open spec fn text_args(args: Seq<Seq<char>>) -> Seq<ArgView> {
    args.map_values(|arg: Seq<char>| ArgView::Text(arg))
}

fn push_text_args(list: &mut Vec<LaunchArg>, args: &Vec<String>)
    ensures
        views(final(list)@) == views(old(list)@) + text_args(views(args@)),
{
    let ghost start = views(list@);
    let ghost all = text_args(views(args@));
    let n: usize = args.len();
    assert(views(list@) =~= start + all.take(0));
    for i in 0..n
        invariant
            n == args@.len(),
            all == text_args(views(args@)),
            views(list@) == start + all.take(i as int),
    {
        let ghost before = list@;
        let arg = LaunchArg::Text(args[i].clone());
        list.push(arg);
        proof {
            crate::text::lemma_views_push(before, arg);
            assert(all[i as int] == arg@);
            assert(views(list@) =~= start + all.take(i + 1));
        }
    }
    assert(all.take(n as int) =~= all);
}

/// A step as it is started.
#[derive(Debug)]
pub struct Launch {
    pub program: FilePath,
    pub args: Vec<LaunchArg>,
    pub cwd: Option<FilePath>,
    pub changes: Vec<EnvChange>,
}

#[verifier::ext_equal]
pub struct LaunchView {
    pub program: PathView,
    pub args: Seq<ArgView>,
    pub cwd: Option<PathView>,
    pub changes: Seq<ChangeView>,
}

impl View for Launch {
    type V = LaunchView;

    open spec fn view(&self) -> LaunchView {
        LaunchView {
            program: self.program@,
            args: views(self.args@),
            cwd: option_view(self.cwd),
            changes: views(self.changes@),
        }
    }
}

/// What is said before step `index` of `total` is started.
pub open spec fn step_notice(step: CommandView, index: nat, total: nat) -> Seq<char> {
    concat(
        seq![
            "\n["@,
            decimal(index + 1),
            "/"@,
            decimal(total),
            "] "@,
            step.label,
            ": "@,
            shown_command(step),
        ],
    )
}

/// How a step is started: by itself, or by `sudo` where it needs to be elevated.
pub open spec fn launch_of(
    platform: Platform,
    root: bool,
    step: CommandView,
    sudo: Option<PathView>,
    inherited: Seq<Seq<char>>,
) -> Result<LaunchView, ErrorView> {
    let changes = environment_changes(platform, inherited, step.env_remove_prefixes, step.env);
    if step.requires_admin && !root {
        match sudo {
            Some(sudo) => Ok(
                LaunchView {
                    program: sudo,
                    args: seq![ArgView::Text("--"@), ArgView::Path(step.program)] + text_args(
                        step.args,
                    ),
                    cwd: step.cwd,
                    changes,
                },
            ),
            None => Err(
                failure(
                    ErrorKind::SudoMissing,
                    "trusted system sudo executable was not found"@,
                ),
            ),
        }
    } else {
        Ok(
            LaunchView {
                program: step.program,
                args: text_args(step.args),
                cwd: step.cwd,
                changes,
            },
        )
    }
}

fn notice_text(step: &CommandSpec, index: usize, total: usize) -> (r: String)
    requires
        index < total,
    ensures
        r@ == step_notice(step@, index as nat, total as nat),
{
    let mut parts: Vec<String> = Vec::new();
    parts.push("\n[".to_owned());
    parts.push(decimal_text(index + 1));
    parts.push("/".to_owned());
    parts.push(decimal_text(total));
    parts.push("] ".to_owned());
    parts.push(step.label.clone());
    parts.push(": ".to_owned());
    parts.push(step.display_command());
    assert(views(parts@) =~= seq![
        "\n["@,
        decimal((index + 1) as nat),
        "/"@,
        decimal(total as nat),
        "] "@,
        step@.label,
        ": "@,
        shown_command(step@),
    ]);
    concat_texts(&parts)
}

fn launch_step(
    platform: Platform,
    root: bool,
    step: &CommandSpec,
    sudo: &Option<FilePath>,
    inherited: &Vec<String>,
) -> (r: Result<Launch, Error>)
    ensures
        crate::error::outcome(r) == launch_of(
            platform,
            root,
            step@,
            option_view(*sudo),
            views(inherited@),
        ),
{
    let changes = step_environment(platform, inherited, step);
    let mut args: Vec<LaunchArg> = Vec::new();
    assert(views(args@) =~= Seq::<ArgView>::empty());
    if step.requires_admin && !root {
        match sudo {
            Some(sudo) => {
                args.push(LaunchArg::Text("--".to_owned()));
                args.push(LaunchArg::Path(step.program.clone()));
                assert(views(args@) =~= seq![
                    ArgView::Text("--"@),
                    ArgView::Path(step@.program),
                ]);
                push_text_args(&mut args, &step.args);
                Ok(
                    Launch {
                        program: sudo.clone(),
                        args,
                        cwd: clone_option_path(&step.cwd),
                        changes,
                    },
                )
            },
            None => Err(
                Error::new(
                    ErrorKind::SudoMissing,
                    "trusted system sudo executable was not found",
                ),
            ),
        }
    } else {
        push_text_args(&mut args, &step.args);
        assert(views(args@) =~= text_args(step@.args));
        Ok(
            Launch {
                program: step.program.clone(),
                args,
                cwd: clone_option_path(&step.cwd),
                changes,
            },
        )
    }
}

/// What came of a step that was started.
#[derive(Debug)]
pub enum StepOutcome {
    /// It could not be started, for the given reason.
    NotStarted(String),
    /// It ended, with or without success, and with a status that reads as given.
    Ended { success: bool, status: String },
}

/// Whether the plan goes on after step `index`.
pub open spec fn step_result(step: CommandView, index: nat, outcome: StepOutcome) -> Result<
    (),
    ErrorView,
> {
    match outcome {
        StepOutcome::NotStarted(cause) => Err(
            caused(ErrorKind::CannotRun, "failed to execute "@ + path_text(step.program), cause@),
        ),
        StepOutcome::Ended { success, status } => if success {
            Ok(())
        } else {
            Err(
                failure(
                    ErrorKind::StepFailed,
                    "step "@ + decimal(index + 1) + " failed with status "@ + status@,
                ),
            )
        },
    }
}

fn judge_step(step: &CommandSpec, index: usize, outcome: &StepOutcome) -> (r: Result<(), Error>)
    requires
        index < usize::MAX,
    ensures
        verdict(r) == step_result(step@, index as nat, *outcome),
{
    match outcome {
        StepOutcome::NotStarted(cause) => Err(
            Error {
                kind: ErrorKind::CannotRun,
                message: cat2("failed to execute ", step.program.text().as_str()),
                cause: Some(cause.clone()),
            },
        ),
        StepOutcome::Ended { success, status } => if *success {
            Ok(())
        } else {
            Err(
                Error::new(
                    ErrorKind::StepFailed,
                    cat4(
                        "step ",
                        decimal_text(index + 1).as_str(),
                        " failed with status ",
                        status.as_str(),
                    ).as_str(),
                ),
            )
        },
    }
}

// ---------------------------------------------------------------------------
// The machine
// ---------------------------------------------------------------------------

/// What the machine waits for.
#[derive(Debug, Clone, Copy, PartialEq, Eq, Structural)]
pub enum Phase {
    /// What the guards of all steps say.
    Guards,
    /// What the guard of this step says.
    Guard(usize),
    /// Where `sudo` is and which variables are inherited, for this step.
    Surroundings(usize),
    /// What came of this step.
    Running(usize),
    /// Nothing: all steps succeeded.
    Done,
    /// Nothing: the plan was given up.
    Stopped,
}

/// What the machine is told.
#[derive(Debug)]
pub enum ExecutionEvent {
    /// For each step, whether anything exists at the path that must not.
    GuardsChecked(Vec<bool>),
    /// Whether anything exists at the path that must not.
    GuardChecked(bool),
    /// The trusted `sudo`, if there is one, and the names of the inherited
    /// variables.
    Surveyed { sudo: Option<FilePath>, inherited: Vec<String> },
    /// What came of the step that was started.
    StepEnded(StepOutcome),
}

/// What is to be done next.
#[derive(Debug)]
pub enum ExecutionAction {
    /// Check the guards of all steps.
    CheckGuards,
    /// Check the guard of this step.
    CheckGuard(usize),
    /// Say this, and look for `sudo` and the inherited variables.
    Survey(String),
    /// Start this.
    Start(Launch),
    /// Nothing: the plan is carried out.
    Complete,
    /// Nothing: the plan is given up.
    Fail(Error),
}

pub enum EventView {
    GuardsChecked(Seq<bool>),
    GuardChecked(bool),
    Surveyed(Option<PathView>, Seq<Seq<char>>),
    StepEnded(StepOutcome),
}

impl View for ExecutionEvent {
    type V = EventView;

    open spec fn view(&self) -> EventView {
        match self {
            ExecutionEvent::GuardsChecked(entries) => EventView::GuardsChecked(entries@),
            ExecutionEvent::GuardChecked(exists) => EventView::GuardChecked(*exists),
            ExecutionEvent::Surveyed { sudo, inherited } => EventView::Surveyed(
                option_view(*sudo),
                views(inherited@),
            ),
            ExecutionEvent::StepEnded(outcome) => EventView::StepEnded(*outcome),
        }
    }
}

pub enum ActionView {
    CheckGuards,
    CheckGuard(usize),
    Survey(Seq<char>),
    Start(LaunchView),
    Complete,
    Fail(ErrorView),
}

impl View for ExecutionAction {
    type V = ActionView;

    open spec fn view(&self) -> ActionView {
        match self {
            ExecutionAction::CheckGuards => ActionView::CheckGuards,
            ExecutionAction::CheckGuard(index) => ActionView::CheckGuard(*index),
            ExecutionAction::Survey(notice) => ActionView::Survey(notice@),
            ExecutionAction::Start(launch) => ActionView::Start(launch@),
            ExecutionAction::Complete => ActionView::Complete,
            ExecutionAction::Fail(error) => ActionView::Fail(error@),
        }
    }
}

/// The steps of a plan and how far they are carried out.
#[derive(Debug)]
pub struct Execution {
    steps: Vec<CommandSpec>,
    platform: Platform,
    root: bool,
    phase: Phase,
}

#[verifier::ext_equal]
pub struct ExecutionView {
    pub steps: Seq<CommandView>,
    pub platform: Platform,
    pub root: bool,
    pub phase: Phase,
}

impl View for Execution {
    type V = ExecutionView;

    closed spec fn view(&self) -> ExecutionView {
        ExecutionView {
            steps: views(self.steps@),
            platform: self.platform,
            root: self.root,
            phase: self.phase,
        }
    }
}

/// Whether some step must not be run as the superuser.
pub open spec fn has_user_step(steps: Seq<CommandView>) -> bool {
    exists|i: int| 0 <= i < steps.len() && !(#[trigger] steps[i]).requires_admin
}

/// The phase and the action that a plan starts with.
pub open spec fn first_action(steps: Seq<CommandView>, root: bool) -> (Phase, ActionView) {
    if root && has_user_step(steps) {
        (
            Phase::Stopped,
            ActionView::Fail(
                failure(
                    ErrorKind::RootRefused,
                    "refusing to run user or virtual-environment installation steps as root; run mate as the target user"@,
                ),
            ),
        )
    } else {
        (Phase::Guards, ActionView::CheckGuards)
    }
}

/// The phase and the action that lead to step `index`, or to the end.
pub open spec fn toward(steps: Seq<CommandView>, index: int) -> (Phase, ActionView) {
    if index < steps.len() {
        (Phase::Guard(index as usize), ActionView::CheckGuard(index as usize))
    } else {
        (Phase::Done, ActionView::Complete)
    }
}

/// Whether the machine can take `event` in `phase`.
pub open spec fn expects(steps: Seq<CommandView>, phase: Phase, event: EventView) -> bool {
    match (phase, event) {
        (Phase::Guards, EventView::GuardsChecked(entries)) => entries.len() == steps.len(),
        (Phase::Guard(i), EventView::GuardChecked(_)) => i < steps.len(),
        (Phase::Surroundings(i), EventView::Surveyed(_, _)) => i < steps.len(),
        (Phase::Running(i), EventView::StepEnded(_)) => i < steps.len(),
        _ => false,
    }
}

/// The phase and the action that follow `event`.
pub open spec fn next_action(
    steps: Seq<CommandView>,
    platform: Platform,
    root: bool,
    phase: Phase,
    event: EventView,
) -> (Phase, ActionView) {
    match (phase, event) {
        (Phase::Guards, EventView::GuardsChecked(entries)) => match all_guards(steps, entries) {
            Ok(_) => toward(steps, 0),
            Err(e) => (Phase::Stopped, ActionView::Fail(e)),
        },
        (Phase::Guard(i), EventView::GuardChecked(exists)) => match guard(
            steps[i as int],
            exists,
        ) {
            Ok(_) => (
                Phase::Surroundings(i),
                ActionView::Survey(step_notice(steps[i as int], i as nat, steps.len())),
            ),
            Err(e) => (Phase::Stopped, ActionView::Fail(e)),
        },
        (Phase::Surroundings(i), EventView::Surveyed(sudo, inherited)) => match launch_of(
            platform,
            root,
            steps[i as int],
            sudo,
            inherited,
        ) {
            Ok(launch) => (Phase::Running(i), ActionView::Start(launch)),
            Err(e) => (Phase::Stopped, ActionView::Fail(e)),
        },
        (Phase::Running(i), EventView::StepEnded(outcome)) => match step_result(
            steps[i as int],
            i as nat,
            outcome,
        ) {
            Ok(_) => toward(steps, i + 1),
            Err(e) => (Phase::Stopped, ActionView::Fail(e)),
        },
        _ => (phase, ActionView::CheckGuards),
    }
}

impl Execution {
    /// Starts to carry out `steps`.
    pub fn begin(steps: Vec<CommandSpec>, platform: Platform, root: bool) -> (r: (
        Execution,
        ExecutionAction,
    ))
        ensures
            r.0@.steps == views(steps@),
            r.0@.platform == platform,
            r.0@.root == root,
            (r.0@.phase, r.1@) == first_action(views(steps@), root),
    {
        let n: usize = steps.len();
        let mut user = false;
        for i in 0..n
            invariant
                n == steps@.len(),
                user == exists|j: int| 0 <= j < i && !(#[trigger] views(steps@)[j]).requires_admin,
        {
            if !steps[i].requires_admin {
                assert(!views(steps@)[i as int].requires_admin);
                user = true;
            }
        }
        assert(user == has_user_step(views(steps@)));
        if root && user {
            return (
                Execution { steps, platform, root, phase: Phase::Stopped },
                ExecutionAction::Fail(
                    Error::new(
                        ErrorKind::RootRefused,
                        "refusing to run user or virtual-environment installation steps as root; run mate as the target user",
                    ),
                ),
            );
        }
        (Execution { steps, platform, root, phase: Phase::Guards }, ExecutionAction::CheckGuards)
    }

    /// The steps of the plan.
    pub fn steps(&self) -> (r: &Vec<CommandSpec>)
        ensures
            views(r@) == self@.steps,
    {
        &self.steps
    }

    /// How far the plan is carried out.
    pub fn phase(&self) -> (r: Phase)
        ensures
            r == self@.phase,
    {
        self.phase
    }

    fn go_to(&mut self, index: usize) -> (r: ExecutionAction)
        ensures
            final(self)@ == (ExecutionView {
                phase: toward(old(self)@.steps, index as int).0,
                ..old(self)@
            }),
            r@ == toward(old(self)@.steps, index as int).1,
    {
        if index < self.steps.len() {
            self.phase = Phase::Guard(index);
            ExecutionAction::CheckGuard(index)
        } else {
            self.phase = Phase::Done;
            ExecutionAction::Complete
        }
    }

    /// Takes `event`, and says what is to be done next.
    pub fn advance(&mut self, event: ExecutionEvent) -> (r: ExecutionAction)
        requires
            expects(old(self)@.steps, old(self)@.phase, event@),
        ensures
            final(self)@.steps == old(self)@.steps,
            final(self)@.platform == old(self)@.platform,
            final(self)@.root == old(self)@.root,
            (final(self)@.phase, r@) == next_action(
                old(self)@.steps,
                old(self)@.platform,
                old(self)@.root,
                old(self)@.phase,
                event@,
            ),
    {
        let total: usize = self.steps.len();
        assert(views(self.steps@).len() == total);
        match (self.phase, event) {
            (Phase::Guards, ExecutionEvent::GuardsChecked(entries)) => {
                match verify_all(&self.steps, &entries) {
                    Ok(_) => self.go_to(0),
                    Err(e) => {
                        self.phase = Phase::Stopped;
                        ExecutionAction::Fail(e)
                    },
                }
            },
            (Phase::Guard(i), ExecutionEvent::GuardChecked(exists)) => {
                match verify_preconditions(&self.steps[i], exists) {
                    Ok(_) => {
                        self.phase = Phase::Surroundings(i);
                        ExecutionAction::Survey(notice_text(&self.steps[i], i, total))
                    },
                    Err(e) => {
                        self.phase = Phase::Stopped;
                        ExecutionAction::Fail(e)
                    },
                }
            },
            (Phase::Surroundings(i), ExecutionEvent::Surveyed { sudo, inherited }) => {
                match launch_step(self.platform, self.root, &self.steps[i], &sudo, &inherited) {
                    Ok(launch) => {
                        self.phase = Phase::Running(i);
                        ExecutionAction::Start(launch)
                    },
                    Err(e) => {
                        self.phase = Phase::Stopped;
                        ExecutionAction::Fail(e)
                    },
                }
            },
            (Phase::Running(i), ExecutionEvent::StepEnded(outcome)) => {
                match judge_step(&self.steps[i], i, &outcome) {
                    Ok(_) => self.go_to(i + 1),
                    Err(e) => {
                        self.phase = Phase::Stopped;
                        ExecutionAction::Fail(e)
                    },
                }
            },
            _ => ExecutionAction::CheckGuards,
        }
    }
}

// ---------------------------------------------------------------------------
// Laws
// ---------------------------------------------------------------------------

/// The phase that a plan is in after `events`, and the steps that were started so
/// far, in order; nothing if the machine could not take some event.
pub open spec fn history(
    steps: Seq<CommandView>,
    platform: Platform,
    root: bool,
    events: Seq<EventView>,
) -> Option<(Phase, Seq<LaunchView>)>
    decreases events.len(),
{
    if events.len() == 0 {
        Some((first_action(steps, root).0, Seq::empty()))
    } else {
        match history(steps, platform, root, events.drop_last()) {
            None => None,
            Some((phase, started)) => if !expects(steps, phase, events.last()) {
                None
            } else {
                let (next, action) = next_action(steps, platform, root, phase, events.last());
                Some(
                    (
                        next,
                        match action {
                            ActionView::Start(launch) => started.push(launch),
                            _ => started,
                        },
                    ),
                )
            },
        }
    }
}

/// Whether `launch` starts `step`, in some surroundings.
pub open spec fn starts(
    platform: Platform,
    root: bool,
    step: CommandView,
    launch: LaunchView,
) -> bool {
    exists|sudo: Option<PathView>, inherited: Seq<Seq<char>>| #[trigger]
        launch_of(platform, root, step, sudo, inherited) == Ok::<LaunchView, ErrorView>(launch)
}

/// How many steps were started in a phase, if the plan was not given up.
pub open spec fn count_started(steps: Seq<CommandView>, phase: Phase) -> int {
    match phase {
        Phase::Guards => 0,
        Phase::Guard(i) => i as int,
        Phase::Surroundings(i) => i as int,
        Phase::Running(i) => i + 1,
        Phase::Done => steps.len() as int,
        Phase::Stopped => 0,
    }
}

/// Steps are started one after the other and in the order of the plan: those that
/// were started are the first ones of the plan, and a plan that is done has
/// started them all.
pub proof fn law_steps_run_in_order(
    steps: Seq<CommandView>,
    platform: Platform,
    root: bool,
    events: Seq<EventView>,
)
    requires
        steps.len() <= usize::MAX,
    ensures
        history(steps, platform, root, events) matches Some((phase, started)) ==> {
            &&& started.len() <= steps.len()
            &&& forall|k: int|
                0 <= k < started.len() ==> starts(platform, root, steps[k], #[trigger] started[k])
            &&& phase != Phase::Stopped ==> started.len() == count_started(steps, phase)
            &&& phase is Guard ==> phase->Guard_0 < steps.len()
            &&& phase is Surroundings ==> phase->Surroundings_0 < steps.len()
            &&& phase is Running ==> phase->Running_0 < steps.len()
        },
    decreases events.len(),
{
    if events.len() > 0 {
        law_steps_run_in_order(steps, platform, root, events.drop_last());
        match history(steps, platform, root, events.drop_last()) {
            None => {},
            Some((phase, started)) => {
                if expects(steps, phase, events.last()) {
                    let (next, action) = next_action(steps, platform, root, phase, events.last());
                    match action {
                        ActionView::Start(launch) => {
                            assert(phase is Surroundings);
                            assert(starts(
                                platform,
                                root,
                                steps[phase->Surroundings_0 as int],
                                launch,
                            )) by {
                                match events.last() {
                                    EventView::Surveyed(sudo, inherited) => {
                                        assert(launch_of(
                                            platform,
                                            root,
                                            steps[phase->Surroundings_0 as int],
                                            sudo,
                                            inherited,
                                        ) == Ok::<LaunchView, ErrorView>(launch));
                                    },
                                    _ => {},
                                }
                            }
                        },
                        _ => {},
                    }
                }
            },
        }
    }
}

/// Whether an event tells of a failure: a guarded path that exists, a step that has
/// to be elevated where there is no `sudo`, or one that was not started or did not
/// succeed.
pub open spec fn tells_failure(
    steps: Seq<CommandView>,
    root: bool,
    phase: Phase,
    event: EventView,
) -> bool {
    match (phase, event) {
        (Phase::Guards, EventView::GuardsChecked(entries)) => all_guards(steps, entries) is Err,
        (Phase::Guard(i), EventView::GuardChecked(exists)) => guard(steps[i as int], exists) is Err,
        (Phase::Surroundings(i), EventView::Surveyed(sudo, _)) => steps[i as int].requires_admin
            && !root && sudo is None,
        (Phase::Running(i), EventView::StepEnded(outcome)) => step_result(
            steps[i as int],
            i as nat,
            outcome,
        ) is Err,
        _ => false,
    }
}

/// The first failure ends the plan: after it the machine takes no event, so that
/// nothing more is started.
pub proof fn law_first_failure_ends_the_plan(
    steps: Seq<CommandView>,
    platform: Platform,
    root: bool,
    events: Seq<EventView>,
    more: EventView,
)
    requires
        events.len() > 0,
        history(steps, platform, root, events.drop_last()) matches Some((phase, _))
            && tells_failure(steps, root, phase, events.last()),
    ensures
        history(steps, platform, root, events.push(more)) is None,
{
    reveal_with_fuel(history, 2);
    assert(events.push(more).drop_last() =~= events);
}

/// No step is started before the guards of all steps were found in order: the
/// first event a started plan has taken says that none of the paths that must not
/// exist does.
pub proof fn law_guards_come_first(
    steps: Seq<CommandView>,
    platform: Platform,
    root: bool,
    events: Seq<EventView>,
)
    ensures
        history(steps, platform, root, events) matches Some((phase, started)) && (started.len() > 0
            || phase is Guard) ==> events.len() > 0 && (events[0] matches EventView::GuardsChecked(
            entries,
        ) && all_guards(steps, entries) is Ok),
    decreases events.len(),
{
    if events.len() > 0 {
        law_guards_come_first(steps, platform, root, events.drop_last());
        lemma_opened(steps, platform, root, events.drop_last());
        if events.len() == 1 {
            assert(events.drop_last().len() == 0);
            assert(events.last() == events[0]);
        } else {
            assert(events.drop_last()[0] == events[0]);
        }
    }
}

/// Beyond the first phase, the guards were checked.
proof fn lemma_opened(
    steps: Seq<CommandView>,
    platform: Platform,
    root: bool,
    events: Seq<EventView>,
)
    ensures
        history(steps, platform, root, events) matches Some((phase, started)) ==> {
            &&& phase is Guards ==> events.len() == 0
            &&& (phase is Guard || phase is Surroundings || phase is Running) ==> events.len() > 0
                && (events[0] matches EventView::GuardsChecked(entries) && all_guards(
                steps,
                entries,
            ) is Ok)
        },
    decreases events.len(),
{
    if events.len() > 0 {
        lemma_opened(steps, platform, root, events.drop_last());
        if events.len() == 1 {
            assert(events.last() == events[0]);
        } else {
            assert(events.drop_last()[0] == events[0]);
        }
    }
}

/// As the superuser, nothing is started that a user is meant to run.
pub proof fn law_root_runs_no_user_step(
    steps: Seq<CommandView>,
    platform: Platform,
    events: Seq<EventView>,
)
    requires
        has_user_step(steps),
    ensures
        history(steps, platform, true, events) matches Some((phase, started)) ==> phase
            == Phase::Stopped && started.len() == 0,
    decreases events.len(),
{
    if events.len() > 0 {
        law_root_runs_no_user_step(steps, platform, events.drop_last());
    }
}

/// What is started for a step is the command of the step: by itself it has the
/// program, the arguments one by one and the directory of the step; elevated, it is
/// `sudo` with the same command behind `--`. It is elevated if and only if the step
/// needs that and mate does not run as the superuser, and only `sudo` can be missing.
pub proof fn law_launch_carries_the_command(
    platform: Platform,
    root: bool,
    step: CommandView,
    sudo: Option<PathView>,
    inherited: Seq<Seq<char>>,
)
    ensures
        step.requires_admin && !root && sudo is None <==> launch_of(
            platform,
            root,
            step,
            sudo,
            inherited,
        ) is Err,
        launch_of(platform, root, step, sudo, inherited) matches Err(e) ==> e.kind
            == ErrorKind::SudoMissing,
        launch_of(platform, root, step, sudo, inherited) matches Ok(launch) ==> {
            &&& launch.cwd == step.cwd
            &&& !step.requires_admin || root ==> {
                &&& launch.program == step.program
                &&& launch.args.len() == step.args.len()
                &&& forall|i: int|
                    0 <= i < step.args.len() ==> #[trigger] launch.args[i] == ArgView::Text(
                        step.args[i],
                    )
            }
            &&& step.requires_admin && !root ==> {
                &&& sudo == Some(launch.program)
                &&& launch.args.len() == step.args.len() + 2
                &&& launch.args[0] == ArgView::Text(seq!['-', '-'])
                &&& launch.args[1] == ArgView::Path(step.program)
                &&& forall|i: int|
                    0 <= i < step.args.len() ==> #[trigger] launch.args[i + 2] == ArgView::Text(
                        step.args[i],
                    )
            }
        },
{
    reveal_strlit("--");
    assert("--"@ =~= seq!['-', '-']);
}

/// What is started for a step sees the variables that the step sets with the last
/// values that it sets; of the others it sees no inherited one whose name begins with
/// a prefix that the step removes, and each other one as it was inherited.
pub proof fn law_launch_carries_the_environment(
    platform: Platform,
    root: bool,
    step: CommandView,
    sudo: Option<PathView>,
    inherited: Seq<Seq<char>>,
    env: Map<Seq<char>, Seq<char>>,
    name: Seq<char>,
)
    requires
        inherited.contains(name) <==> env.contains_key(name),
    ensures
        launch_of(platform, root, step, sudo, inherited) matches Ok(launch) ==> {
            let after = changed(env, launch.changes);
            &&& forall|i: int|
                0 <= i < step.env.len() && (#[trigger] step.env[i]).0 == name && (forall|j: int|
                    i < j < step.env.len() ==> (#[trigger] step.env[j]).0 != name)
                    ==> after.contains_key(name) && after[name] == step.env[i].1
            &&& (forall|i: int| 0 <= i < step.env.len() ==> (#[trigger] step.env[i]).0 != name) ==> {
                &&& (exists|k: int|
                    0 <= k < step.env_remove_prefixes.len() && key_has_prefix(
                        platform,
                        name,
                        #[trigger] step.env_remove_prefixes[k],
                    )) ==> !after.contains_key(name)
                &&& (forall|k: int|
                    0 <= k < step.env_remove_prefixes.len() ==> !key_has_prefix(
                        platform,
                        name,
                        #[trigger] step.env_remove_prefixes[k],
                    )) ==> (after.contains_key(name) <==> env.contains_key(name)) && (
                env.contains_key(name) ==> after[name] == env[name])
            }
        },
{
    if let Ok(launch) = launch_of(platform, root, step, sudo, inherited) {
        assert(launch.changes == environment_changes(
            platform,
            inherited,
            step.env_remove_prefixes,
            step.env,
        ));
        assert forall|i: int|
            0 <= i < step.env.len() && (#[trigger] step.env[i]).0 == name && (forall|j: int|
                i < j < step.env.len() ==> (#[trigger] step.env[j]).0 != name) implies changed(
            env,
            launch.changes,
        ).contains_key(name) && changed(env, launch.changes)[name] == step.env[i].1 by {
            lemma_last_setting_counts(
                env,
                removals(platform, inherited, step.env_remove_prefixes),
                step.env,
                i,
            );
        }
        if forall|i: int| 0 <= i < step.env.len() ==> (#[trigger] step.env[i]).0 != name {
            law_step_environment_is_sanitized(platform, env, inherited, step, name);
        }
    }
}

/// A guarded path that appeared stops a plan, and nothing else that guards tell does:
/// the guards of a plan hold if and only if nothing exists at any path that a step
/// wants not to exist.
pub proof fn law_guards_hold_unless_a_path_appeared(steps: Seq<CommandView>, entries: Seq<bool>)
    requires
        entries.len() == steps.len(),
    ensures
        all_guards(steps, entries) is Ok <==> forall|i: int|
            0 <= i < steps.len() ==> !((#[trigger] steps[i]).must_not_exist is Some && entries[i]),
        all_guards(steps, entries) matches Err(e) ==> e.kind == ErrorKind::PathAppeared,
{
    lemma_guards_hold(steps, entries);
}

proof fn lemma_guards_hold(steps: Seq<CommandView>, entries: Seq<bool>)
    requires
        entries.len() >= steps.len(),
    ensures
        all_guards(steps, entries) is Ok <==> forall|i: int|
            0 <= i < steps.len() ==> !((#[trigger] steps[i]).must_not_exist is Some && entries[i]),
        all_guards(steps, entries) matches Err(e) ==> e.kind == ErrorKind::PathAppeared,
    decreases steps.len(),
{
    if steps.len() > 0 {
        let rest = steps.drop_last();
        lemma_guards_hold(rest, entries);
        let last = steps.len() - 1;
        if all_guards(steps, entries) is Ok {
            assert forall|i: int| 0 <= i < steps.len() implies !((
            #[trigger] steps[i]).must_not_exist is Some && entries[i]) by {
                if i < last {
                    assert(rest[i] == steps[i]);
                }
            }
        }
        if forall|i: int|
            0 <= i < steps.len() ==> !((#[trigger] steps[i]).must_not_exist is Some && entries[i]) {
            assert forall|i: int| 0 <= i < rest.len() implies !((
            #[trigger] rest[i]).must_not_exist is Some && entries[i]) by {
                assert(rest[i] == steps[i]);
            }
            assert(!(steps[last].must_not_exist is Some && entries[last]));
        }
    }
}

/// How the machine goes on, told of what it is told and not of how it decides: past
/// the guards of all steps only if no guarded path appeared, to the first step; past
/// the guard of a step only if its own path did not appear, to that step; past a
/// started step only if that ended with success, to the next one or, behind the last,
/// to the end. In every other case it stops, and a plan that is stopped fails.
pub proof fn law_machine_goes_on_by_success_only(
    steps: Seq<CommandView>,
    platform: Platform,
    root: bool,
    phase: Phase,
    event: EventView,
)
    requires
        steps.len() <= usize::MAX,
        expects(steps, phase, event),
    ensures
        ({
            let (next, action) = next_action(steps, platform, root, phase, event);
            &&& next is Stopped <==> action is Fail
            &&& (phase matches Phase::Guards && event matches EventView::GuardsChecked(entries)) ==> {
                let entries = event->GuardsChecked_0;
                let clear = forall|i: int|
                    0 <= i < steps.len() ==> !((#[trigger] steps[i]).must_not_exist is Some
                        && entries[i]);
                &&& next == if !clear {
                    Phase::Stopped
                } else if steps.len() > 0 {
                    Phase::Guard(0)
                } else {
                    Phase::Done
                }
            }
            &&& phase matches Phase::Guard(i) ==> next == if steps[i as int].must_not_exist is Some
                && event->GuardChecked_0 {
                Phase::Stopped
            } else {
                Phase::Surroundings(i)
            }
            &&& phase matches Phase::Surroundings(i) ==> next == if steps[i as int].requires_admin
                && !root && event->Surveyed_0 is None {
                Phase::Stopped
            } else {
                Phase::Running(i)
            }
            &&& phase matches Phase::Running(i) ==> next == if !(
            event->StepEnded_0 matches StepOutcome::Ended { success: true, .. }) {
                Phase::Stopped
            } else if i + 1 < steps.len() {
                Phase::Guard((i + 1) as usize)
            } else {
                Phase::Done
            }
            &&& next is Done <==> action is Complete
            &&& next is Running <==> action is Start
            &&& next is Surroundings <==> action is Survey
            &&& next matches Phase::Guard(i) ==> action == ActionView::CheckGuard(i)
        }),
{
    if let (Phase::Guards, EventView::GuardsChecked(entries)) = (phase, event) {
        law_guards_hold_unless_a_path_appeared(steps, entries);
    }
}

/// A plan begins with the guards, unless mate runs as the superuser and some step is
/// meant for a user: then it fails at once.
pub proof fn law_superuser_starts_no_user_plan(steps: Seq<CommandView>, root: bool)
    ensures
        first_action(steps, root).0 is Stopped <==> root && exists|i: int|
            0 <= i < steps.len() && !(#[trigger] steps[i]).requires_admin,
        first_action(steps, root).0 is Stopped ==> (first_action(
            steps,
            root,
        ).1 matches ActionView::Fail(e) && e.kind == ErrorKind::RootRefused),
        !(first_action(steps, root).0 is Stopped) ==> first_action(steps, root) == (
            Phase::Guards,
            ActionView::CheckGuards,
        ),
        unprivileged(root) is Err <==> root,
{
}

/// What is said before a step is started names the step by its number, counted from
/// one, the number of all steps, its label and the command as it is shown in the plan.
pub proof fn law_notice_names_the_step(step: CommandView, index: nat, total: nat)
    ensures
        step_notice(step, index, total) == "\n["@ + decimal(index + 1) + "/"@ + decimal(total)
            + "] "@ + step.label + ": "@ + shown_command(step),
{
    reveal_with_fuel(concat, 9);
    assert(step_notice(step, index, total) =~= "\n["@ + decimal(index + 1) + "/"@ + decimal(total)
        + "] "@ + step.label + ": "@ + shown_command(step));
}

/// A step that did not start, or that ended without success, stops the plan, and is told by
/// its program or by its number and status; any other does not.
pub proof fn law_failure_of_a_step_is_told(step: CommandView, index: nat, outcome: StepOutcome)
    ensures
        match outcome {
            StepOutcome::NotStarted(cause) => step_result(step, index, outcome) matches Err(e)
                && e.kind == ErrorKind::CannotRun && e.message == "failed to execute "@ + path_text(
                step.program,
            ) && e.cause == Some(cause@),
            StepOutcome::Ended { success, status } => {
                &&& success <==> step_result(step, index, outcome) is Ok
                &&& !success ==> (step_result(step, index, outcome) matches Err(e) && e.kind
                    == ErrorKind::StepFailed && e.message == "step "@ + decimal(index + 1)
                    + " failed with status "@ + status@)
            },
        },
{
}

} // verus!
