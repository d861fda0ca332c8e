//! The refusals and failures that the library reports.

use vstd::prelude::*;

use crate::text::{cat3, option_view, views};

verus! {

/// Which rule or step failed.
#[derive(Debug, Clone, Copy, PartialEq, Eq, Structural)]
pub enum ErrorKind {
    // Queries and package ids.
    EmptyQuery,
    OptionLikeQuery,
    ControlInQuery,
    EmptyPackageId,
    OptionLikePackageId,
    ControlInPackageId,
    TooManyPackages,
    // Managers.
    NoAdapter,
    UnsupportedOperation,
    NoManagers,
    ManagersMissing,
    SearchFailed,
    SearchToolMissing,
    ResponseTooLarge,
    InvalidSearchOutput,
    NotPersistent,
    // Targets and specifications.
    UnsupportedTarget,
    TargetWithoutPath,
    PathNotUnicode,
    UnknownTarget,
    ForeignTarget,
    NoPackages,
    NotPinned,
    InvalidName,
    InvalidVersion,
    // Plans.
    InstanceMissing,
    SharedNewTarget,
    // Selection.
    UnknownInstance,
    ManagerMismatch,
    NoCandidate,
    SeveralInstances,
    Ambiguous,
    NotExact,
    NoTarget,
    IncompatibleTarget,
    SeveralTargets,
    // Installation.
    WarningsPresent,
    ManagerRequired,
    TargetRequired,
    CannotConfirm,
    // Processes.
    CannotRun,
    CannotRead,
    LimitExceeded,
    TimedOut,
    RootRefused,
    SudoMissing,
    StepFailed,
    PathAppeared,
    // Paths.
    PathNotAbsolute,
    PathUnresolvable,
}

/// What went wrong: the rule, a message for the user and, if something else
/// caused it, that cause in its own words.
#[derive(Debug, PartialEq, Eq)]
pub struct Error {
    pub kind: ErrorKind,
    pub message: String,
    pub cause: Option<String>,
}

#[verifier::ext_equal]
pub struct ErrorView {
    pub kind: ErrorKind,
    pub message: Seq<char>,
    pub cause: Option<Seq<char>>,
}

impl View for Error {
    type V = ErrorView;

    open spec fn view(&self) -> ErrorView {
        ErrorView {
            kind: self.kind,
            message: self.message@,
            cause: option_view(self.cause),
        }
    }
}

/// An error with no further cause.
pub open spec fn failure(kind: ErrorKind, message: Seq<char>) -> ErrorView {
    ErrorView { kind, message, cause: None }
}

/// The message, followed by the cause if there is one.
pub open spec fn error_text(e: ErrorView) -> Seq<char> {
    match e.cause {
        Some(cause) => e.message + ": "@ + cause,
        None => e.message,
    }
}

impl Error {
    pub fn new(kind: ErrorKind, message: &str) -> (r: Error)
        ensures
            r@ == failure(kind, message@),
    {
        Error { kind, message: message.to_owned(), cause: None }
    }

    /// The message, followed by the cause if there is one.
    pub fn text(&self) -> (r: String)
        ensures
            r@ == error_text(self@),
    {
        match &self.cause {
            Some(cause) => cat3(self.message.as_str(), ": ", cause.as_str()),
            None => self.message.clone(),
        }
    }
}

/// The view of a result.
pub open spec fn outcome<T: View>(r: Result<T, Error>) -> Result<T::V, ErrorView> {
    match r {
        Ok(t) => Ok(t@),
        Err(e) => Err(e@),
    }
}

/// The view of a result that holds nothing on success.
pub open spec fn verdict(r: Result<(), Error>) -> Result<(), ErrorView> {
    match r {
        Ok(_) => Ok(()),
        Err(e) => Err(e@),
    }
}

/// The view of a result that holds a list.
pub open spec fn outcome_list<T: View>(r: Result<Vec<T>, Error>) -> Result<Seq<T::V>, ErrorView> {
    match r {
        Ok(list) => Ok(views(list@)),
        Err(e) => Err(e@),
    }
}

/// How std's `Debug` of a text shows it: in double quotes, with what cannot be
/// printed escaped.
pub uninterp spec fn debug_text(s: Seq<char>) -> Seq<char>;

/// `format!("{:?}")` of std on a text. Nothing is claimed of the rendering but
/// that it depends on the text alone.
#[verifier::external_body]
pub(crate) fn debug_quoted(s: &str) -> (r: String)
    ensures
        r@ == debug_text(s@),
{
    format!("{:?}", s)
}

} // verus!
