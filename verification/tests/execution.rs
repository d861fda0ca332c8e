use mate::error::ErrorKind;
use mate::execution::{
    ensure_unprivileged, verify_preconditions, Execution, ExecutionAction, ExecutionEvent,
    LaunchArg, Phase, StepOutcome,
};
use mate::model::{CommandSpec, EnvMap};
use mate::path::{FilePath, Platform};
use mate::process::EnvChange;

fn step(label: &str, guard: Option<&str>, requires_admin: bool) -> CommandSpec {
    CommandSpec {
        label: label.into(),
        program: FilePath::unix("/usr/bin/tool"),
        args: vec!["install".into(), label.into()],
        cwd: None,
        env: EnvMap::new().with("A", "1"),
        env_remove_prefixes: vec!["TOOL_".into()],
        must_not_exist: guard.map(FilePath::unix),
        requires_admin,
    }
}

fn surveyed(sudo: Option<&str>) -> ExecutionEvent {
    ExecutionEvent::Surveyed {
        sudo: sudo.map(FilePath::unix),
        inherited: vec!["PATH".into(), "TOOL_HOME".into()],
    }
}

fn ended(success: bool) -> ExecutionEvent {
    ExecutionEvent::StepEnded(StepOutcome::Ended { success, status: "exit status: 3".into() })
}

#[test]
fn creation_precondition_rejects_a_broken_symlink() {
    let step = CommandSpec {
        label: "test".into(),
        program: FilePath::unix("uv"),
        args: Vec::new(),
        cwd: None,
        env: EnvMap::new(),
        env_remove_prefixes: Vec::new(),
        must_not_exist: Some(FilePath::unix("/t/environment")),
        requires_admin: false,
    };
    assert!(verify_preconditions(&step, true).is_err());
    assert!(verify_preconditions(&step, false).is_ok());
}

#[test]
fn a_path_that_appeared_is_named() {
    let error = verify_preconditions(&step("x", Some("/t/new"), false), true).unwrap_err();
    assert_eq!(error.kind, ErrorKind::PathAppeared);
    assert_eq!(
        error.text(),
        "plan precondition changed: /t/new now exists; refusing to create or overwrite it"
    );
    assert!(verify_preconditions(&step("x", None, false), true).is_ok());
}

#[test]
fn the_superuser_is_refused() {
    assert!(ensure_unprivileged(false).is_ok());
    let error = ensure_unprivileged(true).unwrap_err();
    assert_eq!(error.kind, ErrorKind::RootRefused);
    let (execution, action) =
        Execution::begin(vec![step("user", None, false)], Platform::Unix, true);
    assert_eq!(execution.phase(), Phase::Stopped);
    assert!(matches!(action, ExecutionAction::Fail(error) if error.kind == ErrorKind::RootRefused));
}

#[test]
fn steps_run_one_behind_the_other() {
    let steps = vec![step("one", None, false), step("two", None, true)];
    let (mut execution, action) = Execution::begin(steps, Platform::Unix, false);
    assert!(matches!(action, ExecutionAction::CheckGuards));
    let action = execution.advance(ExecutionEvent::GuardsChecked(vec![false, false]));
    assert!(matches!(action, ExecutionAction::CheckGuard(0)));
    match execution.advance(ExecutionEvent::GuardChecked(false)) {
        ExecutionAction::Survey(notice) => {
            assert_eq!(notice, "\n[1/2] one: /usr/bin/tool install one");
        }
        other => panic!("unexpected action {other:?}"),
    }
    match execution.advance(surveyed(None)) {
        ExecutionAction::Start(launch) => {
            assert_eq!(launch.program, FilePath::unix("/usr/bin/tool"));
            assert_eq!(
                launch.changes,
                vec![
                    EnvChange::Remove("TOOL_HOME".into()),
                    EnvChange::Assign("A".into(), "1".into()),
                ]
            );
        }
        other => panic!("unexpected action {other:?}"),
    }
    assert!(matches!(execution.advance(ended(true)), ExecutionAction::CheckGuard(1)));
    execution.advance(ExecutionEvent::GuardChecked(false));
    match execution.advance(surveyed(Some("/usr/bin/sudo"))) {
        ExecutionAction::Start(launch) => {
            assert_eq!(launch.program, FilePath::unix("/usr/bin/sudo"));
            assert_eq!(
                launch.args,
                [
                    LaunchArg::Text("--".into()),
                    LaunchArg::Path(FilePath::unix("/usr/bin/tool")),
                    LaunchArg::Text("install".into()),
                    LaunchArg::Text("two".into()),
                ]
            );
        }
        other => panic!("unexpected action {other:?}"),
    }
    assert!(matches!(execution.advance(ended(true)), ExecutionAction::Complete));
    assert_eq!(execution.phase(), Phase::Done);
}

#[test]
fn the_first_failure_ends_the_plan() {
    let steps = vec![step("one", None, false), step("two", None, false)];
    let (mut execution, _) = Execution::begin(steps, Platform::Unix, false);
    execution.advance(ExecutionEvent::GuardsChecked(vec![false, false]));
    execution.advance(ExecutionEvent::GuardChecked(false));
    execution.advance(surveyed(None));
    match execution.advance(ended(false)) {
        ExecutionAction::Fail(error) => {
            assert_eq!(error.kind, ErrorKind::StepFailed);
            assert_eq!(error.text(), "step 1 failed with status exit status: 3");
        }
        other => panic!("unexpected action {other:?}"),
    }
    assert_eq!(execution.phase(), Phase::Stopped);
}

#[test]
fn a_missing_sudo_ends_the_plan() {
    let (mut execution, _) =
        Execution::begin(vec![step("one", None, true)], Platform::Unix, false);
    assert_eq!(execution.steps().len(), 1);
    execution.advance(ExecutionEvent::GuardsChecked(vec![false]));
    execution.advance(ExecutionEvent::GuardChecked(false));
    match execution.advance(surveyed(None)) {
        ExecutionAction::Fail(error) => assert_eq!(error.kind, ErrorKind::SudoMissing),
        other => panic!("unexpected action {other:?}"),
    }
    assert_eq!(execution.phase(), Phase::Stopped);
}

#[test]
fn a_step_that_cannot_be_started_ends_the_plan() {
    let (mut execution, _) =
        Execution::begin(vec![step("one", None, false)], Platform::Unix, false);
    execution.advance(ExecutionEvent::GuardsChecked(vec![false]));
    execution.advance(ExecutionEvent::GuardChecked(false));
    execution.advance(surveyed(None));
    let event = ExecutionEvent::StepEnded(StepOutcome::NotStarted("not found".into()));
    match execution.advance(event) {
        ExecutionAction::Fail(error) => {
            assert_eq!(error.kind, ErrorKind::CannotRun);
            assert_eq!(error.text(), "failed to execute /usr/bin/tool: not found");
        }
        other => panic!("unexpected action {other:?}"),
    }
}

#[test]
fn guards_are_checked_before_any_step_and_again_before_each() {
    let steps = vec![step("one", None, false), step("two", Some("/t/new"), false)];
    let (mut execution, _) = Execution::begin(steps.clone(), Platform::Unix, false);
    let action = execution.advance(ExecutionEvent::GuardsChecked(vec![false, true]));
    assert!(matches!(action, ExecutionAction::Fail(error) if error.kind == ErrorKind::PathAppeared));

    let (mut execution, _) = Execution::begin(steps, Platform::Unix, false);
    execution.advance(ExecutionEvent::GuardsChecked(vec![false, false]));
    execution.advance(ExecutionEvent::GuardChecked(false));
    execution.advance(surveyed(None));
    execution.advance(ended(true));
    let action = execution.advance(ExecutionEvent::GuardChecked(true));
    assert!(matches!(action, ExecutionAction::Fail(error) if error.kind == ErrorKind::PathAppeared));
}

#[test]
fn elevation_needs_a_trusted_sudo() {
    let (mut execution, _) =
        Execution::begin(vec![step("one", None, true)], Platform::Unix, false);
    execution.advance(ExecutionEvent::GuardsChecked(vec![false]));
    execution.advance(ExecutionEvent::GuardChecked(false));
    let action = execution.advance(surveyed(None));
    assert!(matches!(action, ExecutionAction::Fail(error) if error.kind == ErrorKind::SudoMissing));
}
