//! Command-line contract.

use vstd::prelude::*;

use crate::engine::{InstallOptions, InstallOptionsView, normalize_packages, normalized_packages};
use crate::error::{Error, ErrorKind, ErrorView, outcome};
use crate::execution::{ensure_unprivileged, unprivileged};
use crate::model::ManagerKind;
use crate::text::{option_view, views};

verus! {

/// What mate was called with.
#[derive(Debug)]
pub struct Cli {
    pub command: Command,
}

#[derive(Debug)]
pub enum Command {
    /// Discover supported package-manager instances and installation targets.
    Doctor {
        /// Emit machine-readable JSON.
        json: bool,
    },
    /// Search every discovered manager without changing the system.
    Search {
        /// One or more package names.
        packages: Vec<String>,
        /// Restrict search to one or more managers.
        manager: Vec<ManagerKind>,
        /// Emit machine-readable JSON.
        json: bool,
    },
    /// Select candidates and targets, preview the complete plan, then install.
    Install {
        /// One or more package names.
        packages: Vec<String>,
        /// Restrict selection to one or more managers.
        manager: Vec<ManagerKind>,
        /// Target id from `mate doctor`, such as system, user, or venv:/path.
        target: Option<String>,
        /// Exact manager-instance id from `mate doctor` when several instances match.
        instance: Option<String>,
        /// Print the plan and stop before confirmation or execution.
        dry_run: bool,
        /// Accept the final plan without an interactive confirmation.
        yes: bool,
    },
}

/// A command that is ready to be carried out.
#[derive(Debug)]
pub enum Task {
    Doctor { json: bool },
    Search { packages: Vec<String>, managers: Vec<ManagerKind>, json: bool },
    Install { packages: Vec<String>, options: InstallOptions },
}

pub enum TaskView {
    Doctor { json: bool },
    Search { packages: Seq<Seq<char>>, managers: Seq<ManagerKind>, json: bool },
    Install { packages: Seq<Seq<char>>, options: InstallOptionsView },
}

impl View for Task {
    type V = TaskView;

    open spec fn view(&self) -> TaskView {
        match self {
            Task::Doctor { json } => TaskView::Doctor { json: *json },
            Task::Search { packages, managers, json } => TaskView::Search {
                packages: views(packages@),
                managers: managers@,
                json: *json,
            },
            Task::Install { packages, options } => TaskView::Install {
                packages: views(packages@),
                options: options@,
            },
        }
    }
}

/// What a command comes to: nothing for the superuser, and nothing that asks for
/// packages that cannot be asked for.
pub open spec fn task_of(command: Command, root: bool, interactive: bool) -> Result<
    TaskView,
    ErrorView,
> {
    match unprivileged(root) {
        Err(e) => Err(e),
        Ok(_) => match command {
            Command::Doctor { json } => Ok(TaskView::Doctor { json }),
            Command::Search { packages, manager, json } => match normalized_packages(
                views(packages@),
            ) {
                Err(e) => Err(e),
                Ok(packages) => Ok(TaskView::Search { packages, managers: manager@, json }),
            },
            Command::Install { packages, manager, target, instance, dry_run, yes } =>
                match normalized_packages(views(packages@)) {
                    Err(e) => Err(e),
                    Ok(packages) => Ok(
                        TaskView::Install {
                            packages,
                            options: InstallOptionsView {
                                managers: manager@,
                                target: option_view(target),
                                instance: option_view(instance),
                                dry_run,
                                yes,
                                interactive,
                            },
                        },
                    ),
                },
        },
    }
}

impl Cli {
    /// Checks what mate was called with, before anything is looked at.
    pub fn task(self, root: bool, interactive: bool) -> (r: Result<Task, Error>)
        ensures
            outcome(r) == task_of(self.command, root, interactive),
    {
        match ensure_unprivileged(root) {
            Ok(_) => {},
            Err(e) => {
                return Err(e);
            },
        }
        match self.command {
            Command::Doctor { json } => Ok(Task::Doctor { json }),
            Command::Search { packages, manager, json } => match normalize_packages(packages) {
                Ok(packages) => Ok(Task::Search { packages, managers: manager, json }),
                Err(e) => Err(e),
            },
            Command::Install { packages, manager, target, instance, dry_run, yes } =>
                match normalize_packages(packages) {
                    Ok(packages) => Ok(
                        Task::Install {
                            packages,
                            options: InstallOptions {
                                managers: manager,
                                target,
                                instance,
                                dry_run,
                                yes,
                                interactive,
                            },
                        },
                    ),
                    Err(e) => Err(e),
                },
        }
    }
}

/// Nothing is done for the superuser. Anyone else gets what they asked for, with all that
/// they said: a search and an installation of the queries that they gave, each once, if
/// all of them can be asked; and a check-up.
pub proof fn law_command_is_carried_out(command: Command, root: bool, interactive: bool)
    ensures
        root ==> (task_of(command, root, interactive) matches Err(e) && e.kind
            == ErrorKind::RootRefused),
        !root ==> match command {
            Command::Doctor { json } => task_of(command, root, interactive) == Ok::<
                TaskView,
                ErrorView,
            >(TaskView::Doctor { json }),
            Command::Search { packages, manager, json } => match normalized_packages(
                views(packages@),
            ) {
                Err(e) => task_of(command, root, interactive) == Err::<TaskView, ErrorView>(e),
                Ok(list) => task_of(command, root, interactive) == Ok::<TaskView, ErrorView>(
                    TaskView::Search { packages: list, managers: manager@, json },
                ),
            },
            Command::Install { packages, manager, target, instance, dry_run, yes } =>
                match normalized_packages(views(packages@)) {
                    Err(e) => task_of(command, root, interactive) == Err::<TaskView, ErrorView>(e),
                    Ok(list) => task_of(
                        command,
                        root,
                        interactive,
                    ) matches Ok(TaskView::Install { packages: asked, options }) && {
                        &&& asked == list
                        &&& options.managers == manager@
                        &&& options.target == option_view(target)
                        &&& options.instance == option_view(instance)
                        &&& options.dry_run == dry_run
                        &&& options.yes == yes
                        &&& options.interactive == interactive
                    },
                },
        },
{
}

} // verus!
