//! Bounded probes and confirmed command execution.
//!
//! Nothing here starts a process. The functions say what to start, with which
//! environment and limits, and what follows from what came of it.

use vstd::prelude::*;
use vstd::utf8::{decode_utf8, valid_utf8};

use crate::error::{Error, ErrorKind, ErrorView, failure, outcome};
use crate::host::{find_facts, Host, HostView};
use crate::model::{CommandSpec, CommandView, EnvVar};
use crate::path::{
    FilePath, has_path, list_has_path, path_child, path_same, path_text, path_under, Platform,
    PathView, show_name, shown_name, unix_path,
};
use crate::platform::{
    canonicalize, distinct_canonical, env_key_has_any_prefix, key_has_any_prefix,
    temporary_places, temporary_roots,
};
use crate::text::{
    cat2, cat4, decimal, decimal_number, decimal_text, escape_controls, escape_prefix, extend_texts,
    has_control, law_escaped_text_has_no_controls, law_split_at_the_last,
    law_text_without_controls_is_kept, lemma_views_push, lines, lower, option_view, rsplit_once,
    same, same_ignoring_case, take_at_most, text_lines, text_rsplit_once, text_trim, trim, views,
};

verus! {

/// How long a probe may take, in seconds.
pub const PROBE_SECONDS: u64 = 4;

/// How long a search may take, in seconds.
pub const SEARCH_SECONDS: u64 = 20;

/// How much a probe may print, in bytes.
pub const PROBE_OUTPUT_LIMIT: usize = 65_536;

/// How much a search may print, in bytes.
pub const SEARCH_OUTPUT_LIMIT: usize = 4_194_304;

/// How much is read at once, in bytes.
pub const CHUNK_SIZE: usize = 8_192;

/// How many characters of a foreign message are shown.
pub const MAX_DIAGNOSTIC_CHARS: usize = 2_000;

// ---------------------------------------------------------------------------
// Diagnostics
// ---------------------------------------------------------------------------

/// The beginning of a foreign text, with control characters escaped.
pub open spec fn diagnostic(value: Seq<char>) -> Seq<char> {
    escape_controls(take_at_most(value, MAX_DIAGNOSTIC_CHARS as nat))
}

pub fn safe_diagnostic(value: &str) -> (r: String)
    ensures
        r@ == diagnostic(value@),
{
    escape_prefix(value, MAX_DIAGNOSTIC_CHARS)
}

/// Foreign text cannot steer the terminal: none of its control characters is left.
pub proof fn law_diagnostic_has_no_controls(value: Seq<char>)
    ensures
        !has_control(diagnostic(value)),
        value.len() <= MAX_DIAGNOSTIC_CHARS && !has_control(value) ==> diagnostic(value) == value,
{
    let start = take_at_most(value, MAX_DIAGNOSTIC_CHARS as nat);
    law_escaped_text_has_no_controls(start);
    law_text_without_controls_is_kept(start);
}

// ---------------------------------------------------------------------------
// Captured output
// ---------------------------------------------------------------------------

/// What a process that ran to its end left behind.
#[derive(Debug)]
pub struct CapturedOutput {
    pub success: bool,
    pub code: Option<i32>,
    pub stdout: String,
    pub stderr: String,
}

#[verifier::ext_equal]
pub struct OutputView {
    pub success: bool,
    pub code: Option<i32>,
    pub stdout: Seq<char>,
    pub stderr: Seq<char>,
}

impl View for CapturedOutput {
    type V = OutputView;

    open spec fn view(&self) -> OutputView {
        OutputView {
            success: self.success,
            code: self.code,
            stdout: self.stdout@,
            stderr: self.stderr@,
        }
    }
}

/// A text for bytes that need not be UTF-8, as std renders it.
pub uninterp spec fn lossy_text(bytes: Seq<u8>) -> Seq<char>;

/// `String::from_utf8_lossy` of std. Claimed: the result depends on the bytes
/// alone, and is what they encode if they are UTF-8. How other bytes are replaced
/// is not said.
#[verifier::external_body]
fn text_of_bytes(bytes: &Vec<u8>) -> (r: String)
    ensures
        r@ == lossy_text(bytes@),
        valid_utf8(bytes@) ==> r@ == decode_utf8(bytes@),
{
    String::from_utf8_lossy(bytes).into_owned()
}

/// What stopped a stream from being read to its end.
#[derive(Debug)]
pub enum BoundedReadError {
    Io(String),
    LimitExceeded,
}

/// What came of a process whose output was to be captured.
#[derive(Debug)]
pub enum CaptureEvent {
    /// It could not be started, for the given reason.
    NotStarted(String),
    /// The named stream was not connected.
    NoStream(String),
    /// Its end could not be awaited, for the given reason.
    NotAwaited(String),
    /// The named stream was not read to its end.
    NotRead(String, BoundedReadError),
    /// It took too long.
    TimedOut,
    /// It ended, having written the given bytes.
    Ended { success: bool, code: Option<i32>, stdout: Vec<u8>, stderr: Vec<u8> },
}

pub open spec fn caused(kind: ErrorKind, message: Seq<char>, cause: Seq<char>) -> ErrorView {
    ErrorView { kind, message, cause: Some(cause) }
}

fn error_caused_by(kind: ErrorKind, message: String, cause: &str) -> (r: Error)
    ensures
        r@ == caused(kind, message@, cause@),
{
    Error { kind, message, cause: Some(cause.to_owned()) }
}

/// The error for a stream that was not read to its end.
pub open spec fn read_error(
    program: PathView,
    stream: Seq<char>,
    limit: nat,
    error: BoundedReadError,
) -> ErrorView {
    match error {
        BoundedReadError::Io(cause) => caused(
            ErrorKind::CannotRead,
            "failed to read "@ + stream + " from "@ + path_text(program),
            cause@,
        ),
        BoundedReadError::LimitExceeded => failure(
            ErrorKind::LimitExceeded,
            path_text(program) + " combined stdout/stderr exceeded the "@ + decimal(limit)
                + "-byte capture limit; process terminated"@,
        ),
    }
}

pub fn capture_read_error(
    program: &FilePath,
    stream: &str,
    limit: usize,
    error: &BoundedReadError,
) -> (r: Error)
    ensures
        r@ == read_error(program@, stream@, limit as nat, *error),
{
    match error {
        BoundedReadError::Io(cause) => error_caused_by(
            ErrorKind::CannotRead,
            cat4("failed to read ", stream, " from ", program.text().as_str()),
            cause.as_str(),
        ),
        BoundedReadError::LimitExceeded => Error::new(
            ErrorKind::LimitExceeded,
            cat4(
                program.text().as_str(),
                " combined stdout/stderr exceeded the ",
                decimal_text(limit).as_str(),
                "-byte capture limit; process terminated",
            ).as_str(),
        ),
    }
}

/// What a capture yields.
pub open spec fn captured(
    program: PathView,
    seconds: nat,
    limit: nat,
    event: CaptureEvent,
) -> Result<OutputView, ErrorView> {
    match event {
        CaptureEvent::NotStarted(cause) => Err(
            caused(ErrorKind::CannotRun, "failed to run "@ + path_text(program), cause@),
        ),
        CaptureEvent::NoStream(stream) => Err(
            failure(
                ErrorKind::CannotRead,
                "failed to capture "@ + stream@ + " from "@ + path_text(program),
            ),
        ),
        CaptureEvent::NotAwaited(cause) => Err(
            caused(ErrorKind::CannotRun, "failed to wait for "@ + path_text(program), cause@),
        ),
        CaptureEvent::NotRead(stream, error) => Err(read_error(program, stream@, limit, error)),
        CaptureEvent::TimedOut => Err(
            failure(
                ErrorKind::TimedOut,
                path_text(program) + " timed out after "@ + decimal(seconds) + " seconds"@,
            ),
        ),
        CaptureEvent::Ended { success, code, stdout, stderr } => if stdout@.len() + stderr@.len()
            > limit {
            Err(read_error(program, "stdout"@, limit, BoundedReadError::LimitExceeded))
        } else {
            Ok(
                OutputView {
                    success,
                    code,
                    stdout: lossy_text(stdout@),
                    stderr: lossy_text(stderr@),
                },
            )
        },
    }
}

/// What a capture yields, from what came of the process.
pub fn capture(
    program: &FilePath,
    seconds: u64,
    limit: usize,
    event: CaptureEvent,
) -> (r: Result<CapturedOutput, Error>)
    ensures
        outcome(r) == captured(program@, seconds as nat, limit as nat, event),
{
    match event {
        CaptureEvent::NotStarted(cause) => Err(
            error_caused_by(
                ErrorKind::CannotRun,
                cat2("failed to run ", program.text().as_str()),
                cause.as_str(),
            ),
        ),
        CaptureEvent::NoStream(stream) => Err(
            Error::new(
                ErrorKind::CannotRead,
                cat4(
                    "failed to capture ",
                    stream.as_str(),
                    " from ",
                    program.text().as_str(),
                ).as_str(),
            ),
        ),
        CaptureEvent::NotAwaited(cause) => Err(
            error_caused_by(
                ErrorKind::CannotRun,
                cat2("failed to wait for ", program.text().as_str()),
                cause.as_str(),
            ),
        ),
        CaptureEvent::NotRead(stream, error) => Err(
            capture_read_error(program, stream.as_str(), limit, &error),
        ),
        CaptureEvent::TimedOut => Err(
            Error::new(
                ErrorKind::TimedOut,
                cat4(
                    program.text().as_str(),
                    " timed out after ",
                    decimal_number(seconds).as_str(),
                    " seconds",
                ).as_str(),
            ),
        ),
        CaptureEvent::Ended { success, code, stdout, stderr } => {
            if stdout.len() > limit || stderr.len() > limit - stdout.len() {
                return Err(
                    capture_read_error(program, "stdout", limit, &BoundedReadError::LimitExceeded),
                );
            }
            Ok(
                CapturedOutput {
                    success,
                    code,
                    stdout: text_of_bytes(&stdout),
                    stderr: text_of_bytes(&stderr),
                },
            )
        },
    }
}

/// Whether the process may still be running and has to be ended.
pub fn must_terminate(event: &CaptureEvent) -> (r: bool)
    ensures
        r == (event is NotAwaited || event is NotRead || event is TimedOut),
{
    match event {
        CaptureEvent::NotAwaited(_) | CaptureEvent::NotRead(_, _) | CaptureEvent::TimedOut => true,
        _ => false,
    }
}

// ---------------------------------------------------------------------------
// The budget of a capture
// ---------------------------------------------------------------------------

/// How much the streams of one process may hold together, and how much was read
/// from them so far.
#[derive(Debug)]
pub struct CaptureBudget {
    pub limit: usize,
    pub captured: usize,
}

/// What follows from a chunk.
#[derive(Debug, Clone, Copy, PartialEq, Eq, Structural)]
pub enum ReadStep {
    /// The stream has ended.
    End,
    /// There may be more.
    More,
    /// There is no room for it.
    LimitExceeded,
}

pub open spec fn chunk_step(budget: CaptureBudget, count: int) -> ReadStep {
    if count == 0 {
        ReadStep::End
    } else if budget.captured + count <= budget.limit {
        ReadStep::More
    } else {
        ReadStep::LimitExceeded
    }
}

impl CaptureBudget {
    /// Whether no more was read than may be.
    pub open spec fn kept(self) -> bool {
        self.captured <= self.limit
    }

    pub fn new(limit: usize) -> (r: CaptureBudget)
        ensures
            r.limit == limit,
            r.captured == 0,
            r.kept(),
    {
        CaptureBudget { limit, captured: 0 }
    }

    /// How much to ask for next: what there is room for and one byte more, so
    /// that a stream of just the right length is told from one that is too long.
    pub fn read_size(&self) -> (r: usize)
        requires
            self.kept(),
        ensures
            r == if self.limit - self.captured + 1 < CHUNK_SIZE {
                self.limit - self.captured + 1
            } else {
                CHUNK_SIZE as int
            },
            r > 0,
    {
        let remaining: usize = self.limit - self.captured;
        if remaining < CHUNK_SIZE {
            remaining + 1
        } else {
            CHUNK_SIZE
        }
    }

    /// Takes a chunk that was read from a stream into what was read from it
    /// before.
    pub fn accept(&mut self, output: &mut Vec<u8>, chunk: &Vec<u8>) -> (r: ReadStep)
        requires
            old(self).kept(),
        ensures
            r == chunk_step(*old(self), chunk@.len() as int),
            final(self).kept(),
            final(self).limit == old(self).limit,
            r == ReadStep::More ==> final(self).captured == old(self).captured + chunk@.len()
                && final(output)@ == old(output)@ + chunk@,
            r != ReadStep::More ==> final(self).captured == old(self).captured && final(output)@
                == old(output)@,
    {
        let count: usize = chunk.len();
        if count == 0 {
            return ReadStep::End;
        }
        if count > self.limit - self.captured {
            return ReadStep::LimitExceeded;
        }
        self.captured = self.captured + count;
        let ghost before = output@;
        for i in 0..count
            invariant
                count == chunk@.len(),
                output@ == before + chunk@.take(i as int),
        {
            output.push(chunk[i]);
            assert(output@ =~= before + chunk@.take(i + 1));
        }
        assert(chunk@.take(count as int) =~= chunk@);
        ReadStep::More
    }
}

/// What is read from two streams that share a budget, chunk by chunk: each chunk
/// is marked with whether it came from the second. Nothing if they hold too much.
pub open spec fn shared_read(limit: nat, chunks: Seq<(bool, Seq<u8>)>) -> Option<
    (Seq<u8>, Seq<u8>),
>
    decreases chunks.len(),
{
    if chunks.len() == 0 {
        Some((Seq::empty(), Seq::empty()))
    } else {
        match shared_read(limit, chunks.drop_last()) {
            None => None,
            Some((first, second)) => {
                let (other, bytes) = chunks.last();
                if first.len() + second.len() + bytes.len() > limit {
                    None
                } else if other {
                    Some((first, second + bytes))
                } else {
                    Some((first + bytes, second))
                }
            },
        }
    }
}

/// The bytes of all chunks.
pub open spec fn total(chunks: Seq<(bool, Seq<u8>)>) -> nat
    decreases chunks.len(),
{
    if chunks.len() == 0 {
        0
    } else {
        total(chunks.drop_last()) + chunks.last().1.len()
    }
}

/// In whatever order two streams are read, the capture succeeds just if together
/// they hold no more than the limit, to the byte.
pub proof fn law_streams_share_one_budget(limit: nat, chunks: Seq<(bool, Seq<u8>)>)
    ensures
        shared_read(limit, chunks) is Some <==> total(chunks) <= limit,
        shared_read(limit, chunks) matches Some((first, second)) ==> first.len() + second.len()
            == total(chunks),
    decreases chunks.len(),
{
    if chunks.len() > 0 {
        law_streams_share_one_budget(limit, chunks.drop_last());
    }
}

/// A chunk that was read from one of two streams.
#[derive(Debug)]
pub struct Chunk {
    pub second: bool,
    pub bytes: Vec<u8>,
}

impl View for Chunk {
    type V = (bool, Seq<u8>);

    open spec fn view(&self) -> (bool, Seq<u8>) {
        (self.second, self.bytes@)
    }
}

/// What two streams hold, from the chunks in which they were read.
pub fn read_bounded(limit: usize, chunks: &Vec<Chunk>) -> (r: Result<
    (Vec<u8>, Vec<u8>),
    BoundedReadError,
>)
    ensures
        match r {
            Ok((first, second)) => shared_read(limit as nat, views(chunks@)) == Some(
                (first@, second@),
            ),
            Err(error) => error is LimitExceeded && shared_read(limit as nat, views(chunks@)) is None,
        },
{
    let ghost all = views(chunks@);
    let mut budget = CaptureBudget::new(limit);
    let mut first: Vec<u8> = Vec::new();
    let mut second: Vec<u8> = Vec::new();
    let n: usize = chunks.len();
    assert(first@ =~= Seq::<u8>::empty());
    assert(second@ =~= Seq::<u8>::empty());
    for i in 0..n
        invariant
            n == chunks@.len(),
            all == views(chunks@),
            budget.kept(),
            budget.limit == limit,
            budget.captured == first@.len() + second@.len(),
            shared_read(limit as nat, all.take(i as int)) == Some((first@, second@)),
    {
        proof {
            assert(all.take(i + 1).drop_last() =~= all.take(i as int));
            assert(all.take(i + 1).last() == chunks@[i as int]@);
        }
        let step = if chunks[i].second {
            budget.accept(&mut second, &chunks[i].bytes)
        } else {
            budget.accept(&mut first, &chunks[i].bytes)
        };
        match step {
            ReadStep::LimitExceeded => {
                proof {
                    lemma_shared_read_stops(limit as nat, all, i + 1);
                }
                return Err(BoundedReadError::LimitExceeded);
            },
            ReadStep::End => {
                assert(chunks@[i as int].bytes@ =~= Seq::<u8>::empty());
                assert(first@ + chunks@[i as int].bytes@ =~= first@);
                assert(second@ + chunks@[i as int].bytes@ =~= second@);
            },
            ReadStep::More => {},
        }
    }
    assert(all.take(n as int) =~= all);
    Ok((first, second))
}

proof fn lemma_shared_read_stops(limit: nat, chunks: Seq<(bool, Seq<u8>)>, n: int)
    requires
        0 <= n <= chunks.len(),
        shared_read(limit, chunks.take(n)) is None,
    ensures
        shared_read(limit, chunks) is None,
    decreases chunks.len() - n,
{
    if n < chunks.len() {
        assert(chunks.take(n + 1).drop_last() =~= chunks.take(n));
        lemma_shared_read_stops(limit, chunks, n + 1);
    } else {
        assert(chunks.take(n) =~= chunks);
    }
}

// ---------------------------------------------------------------------------
// Versions
// ---------------------------------------------------------------------------

/// The first line that is not blank, trimmed.
pub open spec fn first_line(list: Seq<Seq<char>>) -> Option<Seq<char>>
    decreases list.len(),
{
    if list.len() == 0 {
        None
    } else if trim(list[0]).len() > 0 {
        Some(trim(list[0]))
    } else {
        first_line(list.drop_first())
    }
}

/// The version that a probe printed: its first line that is not blank.
pub open spec fn version_line(output: Option<OutputView>) -> Seq<char> {
    match output {
        None => "version unknown"@,
        Some(output) => match first_line(lines(output.stdout) + lines(output.stderr)) {
            Some(line) => line,
            None => "version unknown"@,
        },
    }
}

/// The first line that is not blank, trimmed.
pub fn first_text_line(list: &Vec<String>) -> (r: Option<String>)
    ensures
        option_view(r) == first_line(views(list@)),
{
    let ghost all = views(list@);
    let n: usize = list.len();
    let mut i: usize = 0;
    assert(all.skip(0) =~= all);
    while i < n
        invariant
            n == list@.len(),
            all == views(list@),
            i <= n,
            first_line(all) == first_line(all.skip(i as int)),
        decreases n - i,
    {
        assert(all.skip(i as int)[0] == list@[i as int]@);
        assert(all.skip(i as int).drop_first() =~= all.skip(i + 1));
        let line = text_trim(list[i].as_str());
        if !line.as_str().is_empty() {
            return Some(line);
        }
        i = i + 1;
    }
    None
}

/// The version that a probe printed, if it ran to its end.
pub fn version_text(output: &Option<CapturedOutput>) -> (r: String)
    ensures
        r@ == version_line(option_view(*output)),
{
    match output {
        None => "version unknown".to_owned(),
        Some(output) => {
            let mut all = text_lines(output.stdout.as_str());
            extend_texts(&mut all, &text_lines(output.stderr.as_str()));
            match first_text_line(&all) {
                Some(line) => line,
                None => "version unknown".to_owned(),
            }
        },
    }
}

// ---------------------------------------------------------------------------
// Environments of child processes
// ---------------------------------------------------------------------------

/// One change to the environment that a child process inherits.
#[derive(Debug, PartialEq, Eq)]
pub enum EnvChange {
    Assign(String, String),
    Remove(String),
}

pub enum ChangeView {
    Assign(Seq<char>, Seq<char>),
    Remove(Seq<char>),
}

impl View for EnvChange {
    type V = ChangeView;

    open spec fn view(&self) -> ChangeView {
        match self {
            EnvChange::Assign(name, value) => ChangeView::Assign(name@, value@),
            EnvChange::Remove(name) => ChangeView::Remove(name@),
        }
    }
}

/// The removal of each inherited variable that begins with one of `prefixes`.
pub open spec fn removals(
    platform: Platform,
    inherited: Seq<Seq<char>>,
    prefixes: Seq<Seq<char>>,
) -> Seq<ChangeView>
    decreases inherited.len(),
{
    if inherited.len() == 0 {
        Seq::empty()
    } else {
        let rest = removals(platform, inherited.drop_last(), prefixes);
        if key_has_any_prefix(platform, inherited.last(), prefixes) {
            rest.push(ChangeView::Remove(inherited.last()))
        } else {
            rest
        }
    }
}

/// The setting of each variable of `env`.
pub open spec fn settings(env: Seq<(Seq<char>, Seq<char>)>) -> Seq<ChangeView> {
    env.map_values(|v: (Seq<char>, Seq<char>)| ChangeView::Assign(v.0, v.1))
}

/// The changes that give a child process its environment: first the inherited
/// variables that begin with one of `prefixes` go, then those of `env` are set.
pub open spec fn environment_changes(
    platform: Platform,
    inherited: Seq<Seq<char>>,
    prefixes: Seq<Seq<char>>,
    env: Seq<(Seq<char>, Seq<char>)>,
) -> Seq<ChangeView> {
    removals(platform, inherited, prefixes) + settings(env)
}

/// The changes for a process whose output is read: it speaks the plain locale.
pub open spec fn capture_changes(
    platform: Platform,
    inherited: Seq<Seq<char>>,
    prefixes: Seq<Seq<char>>,
    env: Seq<(Seq<char>, Seq<char>)>,
) -> Seq<ChangeView> {
    settings(seq![("LC_ALL"@, "C"@), ("LANG"@, "C"@)]) + environment_changes(
        platform,
        inherited,
        prefixes,
        env,
    )
}

fn push_removals(
    changes: &mut Vec<EnvChange>,
    platform: Platform,
    inherited: &Vec<String>,
    prefixes: &Vec<String>,
)
    ensures
        views(final(changes)@) == views(old(changes)@) + removals(
            platform,
            views(inherited@),
            views(prefixes@),
        ),
{
    let ghost all = views(inherited@);
    let ghost start = views(changes@);
    let n: usize = inherited.len();
    assert(views(changes@) =~= start + removals(platform, all.take(0), views(prefixes@)));
    for i in 0..n
        invariant
            n == inherited@.len(),
            all == views(inherited@),
            views(changes@) == start + removals(platform, all.take(i as int), views(prefixes@)),
    {
        proof {
            assert(all.take(i + 1).drop_last() =~= all.take(i as int));
            assert(all.take(i + 1).last() == inherited@[i as int]@);
        }
        if env_key_has_any_prefix(platform, inherited[i].as_str(), prefixes) {
            let ghost before = changes@;
            let change = EnvChange::Remove(inherited[i].clone());
            changes.push(change);
            proof {
                lemma_views_push(before, change);
                assert(views(changes@) =~= start + removals(
                    platform,
                    all.take(i + 1),
                    views(prefixes@),
                ));
            }
        }
    }
    assert(all.take(n as int) =~= all);
}

fn push_settings(changes: &mut Vec<EnvChange>, env: &Vec<EnvVar>)
    ensures
        views(final(changes)@) == views(old(changes)@) + settings(views(env@)),
{
    let ghost all = settings(views(env@));
    let ghost start = views(changes@);
    let n: usize = env.len();
    assert(views(changes@) =~= start + all.take(0));
    for i in 0..n
        invariant
            n == env@.len(),
            all == settings(views(env@)),
            views(changes@) == start + all.take(i as int),
    {
        let ghost before = changes@;
        let change = EnvChange::Assign(env[i].name.clone(), env[i].value.clone());
        changes.push(change);
        proof {
            lemma_views_push(before, change);
            assert(all[i as int] == change@);
            assert(views(changes@) =~= start + all.take(i + 1));
        }
    }
    assert(all.take(n as int) =~= all);
}

/// The changes to the environment of a process whose output is read.
pub fn capture_environment(
    platform: Platform,
    inherited: &Vec<String>,
    prefixes: &Vec<String>,
    env: &Vec<EnvVar>,
) -> (r: Vec<EnvChange>)
    ensures
        views(r@) == capture_changes(
            platform,
            views(inherited@),
            views(prefixes@),
            views(env@),
        ),
{
    let mut r: Vec<EnvChange> = Vec::new();
    let mut locale: Vec<EnvVar> = Vec::new();
    locale.push(EnvVar { name: "LC_ALL".to_owned(), value: "C".to_owned() });
    locale.push(EnvVar { name: "LANG".to_owned(), value: "C".to_owned() });
    assert(views(locale@) =~= seq![("LC_ALL"@, "C"@), ("LANG"@, "C"@)]);
    push_settings(&mut r, &locale);
    push_removals(&mut r, platform, inherited, prefixes);
    push_settings(&mut r, env);
    assert(views(r@) =~= capture_changes(
        platform,
        views(inherited@),
        views(prefixes@),
        views(env@),
    ));
    r
}

/// The changes to the environment of a step of a plan.
pub fn step_environment(platform: Platform, inherited: &Vec<String>, step: &CommandSpec) -> (r: Vec<
    EnvChange,
>)
    ensures
        views(r@) == environment_changes(
            platform,
            views(inherited@),
            step@.env_remove_prefixes,
            step@.env,
        ),
{
    let mut r: Vec<EnvChange> = Vec::new();
    push_removals(&mut r, platform, inherited, &step.env_remove_prefixes);
    push_settings(&mut r, step.env.entries());
    assert(views(r@) =~= environment_changes(
        platform,
        views(inherited@),
        step@.env_remove_prefixes,
        step@.env,
    ));
    r
}

/// An environment after some changes.
pub open spec fn changed(env: Map<Seq<char>, Seq<char>>, changes: Seq<ChangeView>) -> Map<
    Seq<char>,
    Seq<char>,
>
    decreases changes.len(),
{
    if changes.len() == 0 {
        env
    } else {
        let before = changed(env, changes.drop_last());
        match changes.last() {
            ChangeView::Assign(name, value) => before.insert(name, value),
            ChangeView::Remove(name) => before.remove(name),
        }
    }
}

proof fn lemma_removals(
    env: Map<Seq<char>, Seq<char>>,
    platform: Platform,
    inherited: Seq<Seq<char>>,
    prefixes: Seq<Seq<char>>,
    name: Seq<char>,
)
    ensures
        changed(env, removals(platform, inherited, prefixes)).contains_key(name) <==> (
        env.contains_key(name) && !(inherited.contains(name) && key_has_any_prefix(
            platform,
            name,
            prefixes,
        ))),
        changed(env, removals(platform, inherited, prefixes)).contains_key(name) ==> changed(
            env,
            removals(platform, inherited, prefixes),
        )[name] == env[name],
    decreases inherited.len(),
{
    if inherited.len() > 0 {
        let rest = inherited.drop_last();
        lemma_removals(env, platform, rest, prefixes, name);
        let list = removals(platform, inherited, prefixes);
        if key_has_any_prefix(platform, inherited.last(), prefixes) {
            assert(list.drop_last() =~= removals(platform, rest, prefixes));
        }
        if inherited.contains(name) {
            let k = choose|k: int| 0 <= k < inherited.len() && inherited[k] == name;
            if k < rest.len() {
                assert(rest[k] == name);
            }
        }
        if rest.contains(name) {
            let k = choose|k: int| 0 <= k < rest.len() && rest[k] == name;
            assert(inherited[k] == name);
        }
        assert(inherited[inherited.len() - 1] == inherited.last());
    }
}

proof fn lemma_settings(
    env: Map<Seq<char>, Seq<char>>,
    changes: Seq<ChangeView>,
    set: Seq<(Seq<char>, Seq<char>)>,
    name: Seq<char>,
)
    ensures
        (forall|i: int| 0 <= i < set.len() ==> (#[trigger] set[i]).0 != name) ==> (changed(
            env,
            changes + settings(set),
        ).contains_key(name) <==> changed(env, changes).contains_key(name)) && changed(
            env,
            changes + settings(set),
        )[name] == changed(env, changes)[name],
        (exists|i: int| 0 <= i < set.len() && (#[trigger] set[i]).0 == name) ==> changed(
            env,
            changes + settings(set),
        ).contains_key(name),
    decreases set.len(),
{
    if set.len() == 0 {
        assert(changes + settings(set) =~= changes);
    } else {
        let rest = set.drop_last();
        lemma_settings(env, changes, rest, name);
        let all = changes + settings(set);
        assert(all.drop_last() =~= changes + settings(rest));
        assert(all.last() == ChangeView::Assign(set.last().0, set.last().1));
        assert(set.last() == set[set.len() - 1]);
        if forall|i: int| 0 <= i < set.len() ==> (#[trigger] set[i]).0 != name {
            assert forall|i: int| 0 <= i < rest.len() implies (#[trigger] rest[i]).0 != name by {
                assert(rest[i] == set[i]);
            }
        }
        if exists|i: int| 0 <= i < set.len() && (#[trigger] set[i]).0 == name {
            let i = choose|i: int| 0 <= i < set.len() && (#[trigger] set[i]).0 == name;
            if i < rest.len() {
                assert(rest[i].0 == name);
            }
        }
    }
}

/// Of several settings of one variable, the last counts.
pub proof fn lemma_last_setting_counts(
    env: Map<Seq<char>, Seq<char>>,
    changes: Seq<ChangeView>,
    set: Seq<(Seq<char>, Seq<char>)>,
    i: int,
)
    requires
        0 <= i < set.len(),
        forall|j: int| i < j < set.len() ==> (#[trigger] set[j]).0 != set[i].0,
    ensures
        changed(env, changes + settings(set)).contains_key(set[i].0),
        changed(env, changes + settings(set))[set[i].0] == set[i].1,
    decreases set.len(),
{
    let rest = set.drop_last();
    let all = changes + settings(set);
    assert(all.drop_last() =~= changes + settings(rest));
    assert(all.last() == ChangeView::Assign(set.last().0, set.last().1));
    if i < rest.len() {
        assert(rest[i] == set[i]);
        assert forall|j: int| i < j < rest.len() implies (#[trigger] rest[j]).0 != rest[i].0 by {
            assert(rest[j] == set[j]);
        }
        lemma_last_setting_counts(env, changes, rest, i);
        assert(set[set.len() - 1].0 != set[i].0);
    }
}

/// A process whose output is read speaks the plain locale, unless the request itself
/// sets another, and otherwise sees what a step with the same prefixes and variables
/// sees.
pub proof fn law_captured_process_speaks_plainly(
    platform: Platform,
    env: Map<Seq<char>, Seq<char>>,
    inherited: Seq<Seq<char>>,
    prefixes: Seq<Seq<char>>,
    set: Seq<(Seq<char>, Seq<char>)>,
    name: Seq<char>,
)
    requires
        inherited.contains(name) <==> env.contains_key(name),
        forall|i: int| 0 <= i < set.len() ==> (#[trigger] set[i]).0 != name,
        !key_has_any_prefix(platform, name, prefixes),
    ensures
        ({
            let after = changed(env, capture_changes(platform, inherited, prefixes, set));
            &&& name == "LC_ALL"@ || name == "LANG"@ ==> after.contains_key(name) && after[name]
                == "C"@
            &&& name != "LC_ALL"@ && name != "LANG"@ ==> (after.contains_key(name)
                <==> env.contains_key(name)) && (env.contains_key(name) ==> after[name]
                == env[name])
        }),
{
    let locale = seq![("LC_ALL"@, "C"@), ("LANG"@, "C"@)];
    let first = settings(locale);
    reveal_with_fuel(changed, 3);
    assert(first.drop_last() =~= seq![ChangeView::Assign("LC_ALL"@, "C"@)]);
    assert(first.drop_last().drop_last() =~= Seq::<ChangeView>::empty());
    let plain = changed(env, first);
    assert(plain == env.insert("LC_ALL"@, "C"@).insert("LANG"@, "C"@));
    let more = removals(platform, inherited, prefixes);
    lemma_changed_in_turn(env, first, more);
    lemma_no_removal(plain, platform, inherited, prefixes, name);
    assert(capture_changes(platform, inherited, prefixes, set) =~= (first + more) + settings(set));
    lemma_settings(env, first + more, set, name);
}

proof fn lemma_changed_in_turn(
    env: Map<Seq<char>, Seq<char>>,
    first: Seq<ChangeView>,
    more: Seq<ChangeView>,
)
    ensures
        changed(env, first + more) == changed(changed(env, first), more),
    decreases more.len(),
{
    if more.len() == 0 {
        assert(first + more =~= first);
    } else {
        lemma_changed_in_turn(env, first, more.drop_last());
        assert((first + more).drop_last() =~= first + more.drop_last());
    }
}

proof fn lemma_no_removal(
    env: Map<Seq<char>, Seq<char>>,
    platform: Platform,
    inherited: Seq<Seq<char>>,
    prefixes: Seq<Seq<char>>,
    name: Seq<char>,
)
    requires
        !key_has_any_prefix(platform, name, prefixes),
    ensures
        changed(env, removals(platform, inherited, prefixes)).contains_key(name)
            <==> env.contains_key(name),
        env.contains_key(name) ==> changed(env, removals(platform, inherited, prefixes))[name]
            == env[name],
    decreases inherited.len(),
{
    if inherited.len() > 0 {
        let rest = inherited.drop_last();
        lemma_no_removal(env, platform, rest, prefixes, name);
        let list = removals(platform, inherited, prefixes);
        if key_has_any_prefix(platform, inherited.last(), prefixes) {
            assert(list.drop_last() =~= removals(platform, rest, prefixes));
        }
    }
}

/// A step of a plan sees no inherited variable whose name begins with a prefix
/// that the plan unsets, unless the plan itself sets it; any other variable it
/// sees as it was inherited.
pub proof fn law_step_environment_is_sanitized(
    platform: Platform,
    env: Map<Seq<char>, Seq<char>>,
    inherited: Seq<Seq<char>>,
    step: CommandView,
    name: Seq<char>,
)
    requires
        inherited.contains(name) <==> env.contains_key(name),
        forall|i: int| 0 <= i < step.env.len() ==> (#[trigger] step.env[i]).0 != name,
    ensures
        ({
            let after = changed(
                env,
                environment_changes(platform, inherited, step.env_remove_prefixes, step.env),
            );
            &&& key_has_any_prefix(platform, name, step.env_remove_prefixes) ==> !after.contains_key(
                name,
            )
            &&& !key_has_any_prefix(platform, name, step.env_remove_prefixes) ==> (
            after.contains_key(name) <==> env.contains_key(name)) && (env.contains_key(name)
                ==> after[name] == env[name])
        }),
{
    lemma_removals(env, platform, inherited, step.env_remove_prefixes, name);
    lemma_settings(
        env,
        removals(platform, inherited, step.env_remove_prefixes),
        step.env,
        name,
    );
}

// ---------------------------------------------------------------------------
// Requests
// ---------------------------------------------------------------------------

/// A process to run and read the output of: nothing comes in, and it is ended
/// when it takes too long or prints too much.
#[derive(Debug)]
pub struct CaptureRequest {
    pub program: FilePath,
    pub args: Vec<String>,
    pub seconds: u64,
    pub limit: usize,
    pub env_remove_prefixes: Vec<String>,
    pub env: Vec<EnvVar>,
    pub cwd: Option<FilePath>,
}

#[verifier::ext_equal]
pub struct RequestView {
    pub program: PathView,
    pub args: Seq<Seq<char>>,
    pub seconds: u64,
    pub limit: usize,
    pub env_remove_prefixes: Seq<Seq<char>>,
    pub env: Seq<(Seq<char>, Seq<char>)>,
    pub cwd: Option<PathView>,
}

impl View for CaptureRequest {
    type V = RequestView;

    open spec fn view(&self) -> RequestView {
        RequestView {
            program: self.program@,
            args: views(self.args@),
            seconds: self.seconds,
            limit: self.limit,
            env_remove_prefixes: views(self.env_remove_prefixes@),
            env: views(self.env@),
            cwd: option_view(self.cwd),
        }
    }
}

/// The request for a version.
pub open spec fn version_request(
    program: PathView,
    args: Seq<Seq<char>>,
    prefixes: Seq<Seq<char>>,
    env: Seq<(Seq<char>, Seq<char>)>,
    cwd: Option<PathView>,
) -> RequestView {
    RequestView {
        program,
        args,
        seconds: PROBE_SECONDS,
        limit: PROBE_OUTPUT_LIMIT,
        env_remove_prefixes: prefixes,
        env,
        cwd,
    }
}

/// The request for a search.
pub open spec fn search_request(
    program: PathView,
    args: Seq<Seq<char>>,
    prefixes: Seq<Seq<char>>,
    env: Seq<(Seq<char>, Seq<char>)>,
) -> RequestView {
    RequestView {
        program,
        args,
        seconds: SEARCH_SECONDS,
        limit: SEARCH_OUTPUT_LIMIT,
        env_remove_prefixes: prefixes,
        env,
        cwd: None,
    }
}

pub fn probe_version(program: &FilePath, args: Vec<String>) -> (r: CaptureRequest)
    ensures
        r@ == version_request(program@, views(args@), Seq::empty(), Seq::empty(), None),
{
    probe_version_sanitized(program, args, Vec::new(), Vec::new())
}

pub fn probe_version_sanitized(
    program: &FilePath,
    args: Vec<String>,
    env_remove_prefixes: Vec<String>,
    env: Vec<EnvVar>,
) -> (r: CaptureRequest)
    ensures
        r@ == version_request(
            program@,
            views(args@),
            views(env_remove_prefixes@),
            views(env@),
            None,
        ),
{
    probe_version_sanitized_in(program, args, env_remove_prefixes, env, None)
}

pub fn probe_version_sanitized_in(
    program: &FilePath,
    args: Vec<String>,
    env_remove_prefixes: Vec<String>,
    env: Vec<EnvVar>,
    cwd: Option<FilePath>,
) -> (r: CaptureRequest)
    ensures
        r@ == version_request(
            program@,
            views(args@),
            views(env_remove_prefixes@),
            views(env@),
            option_view(cwd),
        ),
{
    CaptureRequest {
        program: program.clone(),
        args,
        seconds: PROBE_SECONDS,
        limit: PROBE_OUTPUT_LIMIT,
        env_remove_prefixes,
        env,
        cwd,
    }
}

pub fn search_command(program: &FilePath, args: Vec<String>) -> (r: CaptureRequest)
    ensures
        r@ == search_request(program@, views(args@), Seq::empty(), Seq::empty()),
{
    search_command_sanitized(program, args, Vec::new(), Vec::new())
}

pub fn search_command_sanitized(
    program: &FilePath,
    args: Vec<String>,
    env_remove_prefixes: Vec<String>,
    env: Vec<EnvVar>,
) -> (r: CaptureRequest)
    ensures
        r@ == search_request(program@, views(args@), views(env_remove_prefixes@), views(env@)),
{
    CaptureRequest {
        program: program.clone(),
        args,
        seconds: SEARCH_SECONDS,
        limit: SEARCH_OUTPUT_LIMIT,
        env_remove_prefixes,
        env,
        cwd: None,
    }
}

// ---------------------------------------------------------------------------
// Executables
// ---------------------------------------------------------------------------

/// The file name of a command.
pub open spec fn file_name(platform: Platform, name: Seq<char>) -> Seq<char> {
    match platform {
        Platform::Windows => name + ".exe"@,
        Platform::Unix => name,
    }
}

/// The file name of a command. There is one: scripts that need an interpreter are
/// not started.
pub fn executable_name(platform: Platform, name: &str) -> (r: String)
    ensures
        r@ == file_name(platform, name@),
{
    match platform {
        Platform::Windows => cat2(name, ".exe"),
        Platform::Unix => name.to_owned(),
    }
}

/// The file names that a command may have.
pub fn executable_names(platform: Platform, name: &str) -> (r: Vec<String>)
    ensures
        views(r@) == seq![file_name(platform, name@)],
{
    let mut r: Vec<String> = Vec::new();
    r.push(executable_name(platform, name));
    assert(views(r@) =~= seq![file_name(platform, name@)]);
    r
}

/// What the search for commands has found so far: where the commands are, and
/// the files that they lead to.
pub open spec fn with_launcher(
    host: HostView,
    so_far: (Seq<PathView>, Seq<PathView>),
    candidate: PathView,
) -> (Seq<PathView>, Seq<PathView>) {
    let (found, identities) = so_far;
    match host.canonical(candidate) {
        Some(identity) => if host.is_file(candidate) && !has_path(identities, identity) {
            (found.push(candidate), identities.push(identity))
        } else {
            so_far
        },
        None => so_far,
    }
}

/// A directory to look for commands in, in its canonical form.
pub open spec fn launch_directory(host: HostView, directory: PathView) -> Option<PathView> {
    if directory.root.len() == 0 && directory.parts.len() == 0 {
        match host.current_dir {
            Some(current) => host.canonical(current),
            None => None,
        }
    } else {
        host.canonical(directory)
    }
}

/// The command `name` in each of `directories`, each file once, and the files.
pub open spec fn launchers(host: HostView, name: Seq<char>, directories: Seq<PathView>) -> (
    Seq<PathView>,
    Seq<PathView>,
)
    decreases directories.len(),
{
    if directories.len() == 0 {
        (Seq::empty(), Seq::empty())
    } else {
        let before = launchers(host, name, directories.drop_last());
        match launch_directory(host, directories.last()) {
            Some(directory) => with_launcher(
                host,
                before,
                path_child(directory, file_name(host.platform, name)),
            ),
            None => before,
        }
    }
}

pub(crate) fn canonical_launch_directory(host: &Host, directory: &FilePath) -> (r: Option<FilePath>)
    ensures
        option_view(r) == launch_directory(host@, directory@),
{
    assert(directory@.parts.len() == directory.parts@.len());
    if directory.root.as_str().is_empty() && directory.parts.len() == 0 {
        match &host.current_dir {
            Some(current) => canonicalize(host, current),
            None => None,
        }
    } else {
        canonicalize(host, directory)
    }
}

/// Finds the command `name` in `directories`: each file once, under the name by
/// which it was first found.
pub fn find_all_in_directories(host: &Host, name: &str, directories: &Vec<FilePath>) -> (r: Vec<
    FilePath,
>)
    ensures
        views(r@) == launchers(host@, name@, views(directories@)).0,
{
    let file = executable_name(host.platform, name);
    let ghost all = views(directories@);
    let mut found: Vec<FilePath> = Vec::new();
    let mut identities: Vec<FilePath> = Vec::new();
    let n: usize = directories.len();
    assert(views(found@) =~= launchers(host@, name@, all.take(0)).0);
    assert(views(identities@) =~= launchers(host@, name@, all.take(0)).1);
    for i in 0..n
        invariant
            n == directories@.len(),
            all == views(directories@),
            file@ == file_name(host@.platform, name@),
            views(found@) == launchers(host@, name@, all.take(i as int)).0,
            views(identities@) == launchers(host@, name@, all.take(i as int)).1,
    {
        proof {
            assert(all.take(i + 1).drop_last() =~= all.take(i as int));
            assert(all.take(i + 1).last() == directories@[i as int]@);
        }
        if let Some(directory) = canonical_launch_directory(host, &directories[i]) {
            let candidate = directory.child(file.as_str());
            if host.is_file(&candidate) {
                if let Some(identity) = canonicalize(host, &candidate) {
                    if !list_has_path(&identities, &identity) {
                        let ghost before = (found@, identities@);
                        found.push(candidate);
                        identities.push(identity);
                        proof {
                            lemma_views_push(before.0, candidate);
                            lemma_views_push(before.1, identity);
                        }
                    }
                }
            }
        }
    }
    assert(all.take(n as int) =~= all);
    found
}

/// Finds the command `name` where commands are looked for.
pub fn find_all_on_path(host: &Host, name: &str) -> (r: Vec<FilePath>)
    ensures
        views(r@) == launchers(host@, name@, host@.search_path).0,
{
    find_all_in_directories(host, name, &host.search_path)
}

/// No file is found twice.
pub proof fn law_commands_found_once(host: HostView, name: Seq<char>, directories: Seq<PathView>)
    ensures
        launchers(host, name, directories).0.len() == launchers(host, name, directories).1.len(),
        forall|i: int|
            0 <= i < launchers(host, name, directories).0.len() ==> host.canonical(
                #[trigger] launchers(host, name, directories).0[i],
            ) == Some(launchers(host, name, directories).1[i]),
        forall|i: int, j: int|
            0 <= i < j < launchers(host, name, directories).1.len() ==> !path_same(
                #[trigger] launchers(host, name, directories).1[i],
                #[trigger] launchers(host, name, directories).1[j],
            ),
    decreases directories.len(),
{
    if directories.len() > 0 {
        law_commands_found_once(host, name, directories.drop_last());
        let (found, identities) = launchers(host, name, directories.drop_last());
        let (all, files) = launchers(host, name, directories);
        assert forall|i: int| 0 <= i < all.len() implies host.canonical(#[trigger] all[i]) == Some(
            files[i],
        ) by {
            if i < found.len() {
                assert(all[i] == found[i] && files[i] == identities[i]);
            }
        }
        assert forall|i: int, j: int| 0 <= i < j < files.len() implies !path_same(
            #[trigger] files[i],
            #[trigger] files[j],
        ) by {
            assert(files[i] == identities[i]);
            if j < identities.len() {
                assert(files[j] == identities[j]);
            }
        }
    }
}

/// Whether someone may execute a file, and only its owner may change it.
pub open spec fn mode_is_safe(mode: u32) -> bool {
    mode & 0o111 != 0 && mode & 0o022 == 0
}

/// What follows the last dot of a file name, if something stands before the dot.
pub open spec fn extension(p: PathView) -> Option<Seq<char>> {
    if p.parts.len() == 0 {
        None
    } else {
        let name = shown_name(p.parts.last());
        match rsplit_once(name, '.') {
            Some((stem, extension)) => if stem.len() > 0 && name != ".."@ {
                Some(extension)
            } else {
                None
            },
            None => None,
        }
    }
}

/// Whether a user may be handed the file as a package manager.
pub open spec fn permissions_are_safe(host: HostView, path: PathView) -> bool {
    match find_facts(host.paths, path) {
        Some(facts) => facts.is_file && match host.platform {
            Platform::Unix => mode_is_safe(facts.mode),
            Platform::Windows => extension(path) is Some && lower(extension(path)->0) == lower(
                "exe"@,
            ),
        },
        None => false,
    }
}

fn has_exe_extension(path: &FilePath) -> (r: bool)
    ensures
        r == (extension(path@) is Some && lower(extension(path@)->0) == lower("exe"@)),
{
    if path.parts.len() == 0 {
        assert(path@.parts.len() == 0);
        return false;
    }
    assert(path@.parts.last() == path.parts@.last()@);
    let name = show_name(path.parts[path.parts.len() - 1].as_str());
    match text_rsplit_once(name.as_str(), '.') {
        Some((stem, extension)) => !stem.as_str().is_empty() && !same(name.as_str(), "..")
            && same_ignoring_case(extension.as_str(), "exe"),
        None => false,
    }
}

pub fn user_executable_permissions_are_safe(host: &Host, path: &FilePath) -> (r: bool)
    ensures
        r == permissions_are_safe(host@, path@),
{
    match host.facts(path) {
        Some(facts) => facts.is_file && match host.platform {
            Platform::Unix => facts.mode & 0o111 != 0 && facts.mode & 0o022 == 0,
            Platform::Windows => has_exe_extension(path),
        },
        None => false,
    }
}

/// Whether `p` lies at or below one of `roots`.
pub open spec fn under_any(p: PathView, roots: Seq<PathView>) -> bool {
    exists|i: int| 0 <= i < roots.len() && path_under(p, #[trigger] roots[i])
}

fn lies_under_any(path: &FilePath, roots: &Vec<FilePath>) -> (r: bool)
    ensures
        r == under_any(path@, views(roots@)),
{
    let n: usize = roots.len();
    for i in 0..n
        invariant
            n == roots@.len(),
            forall|j: int| 0 <= j < i ==> !path_under(path@, #[trigger] views(roots@)[j]),
    {
        if path.starts_with(&roots[i]) {
            assert(path_under(path@, views(roots@)[i as int]));
            return true;
        }
    }
    false
}

/// Whether an executable may be taken for a package manager of the user: it is
/// there, lies neither in the project nor among temporary files, and nobody else
/// may change it.
pub open spec fn is_safe_user_executable(
    host: HostView,
    path: PathView,
    project_root: Option<PathView>,
) -> bool {
    match host.canonical(path) {
        Some(canonical) => {
            &&& !(project_root is Some && path_under(canonical, project_root->0))
            &&& !under_any(canonical, distinct_canonical(host, temporary_places(host)))
            &&& permissions_are_safe(host, canonical)
        },
        None => false,
    }
}

pub fn safe_user_executable(host: &Host, path: &FilePath, project_root: &Option<FilePath>) -> (r:
    bool)
    ensures
        r == is_safe_user_executable(host@, path@, option_view(*project_root)),
{
    let canonical = match canonicalize(host, path) {
        Some(canonical) => canonical,
        None => {
            return false;
        },
    };
    if lies_under_any(&canonical, &temporary_roots(host)) {
        return false;
    }
    if let Some(root) = project_root {
        if canonical.starts_with(root) {
            return false;
        }
    }
    user_executable_permissions_are_safe(host, &canonical)
}

/// Those of `paths` that may be taken for package managers of the user.
pub open spec fn safe_executables(
    host: HostView,
    paths: Seq<PathView>,
    project_root: Option<PathView>,
) -> Seq<PathView>
    decreases paths.len(),
{
    if paths.len() == 0 {
        Seq::empty()
    } else {
        let rest = safe_executables(host, paths.drop_last(), project_root);
        if is_safe_user_executable(host, paths.last(), project_root) {
            rest.push(paths.last())
        } else {
            rest
        }
    }
}

/// The command `name`, wherever it is found and may be used.
pub open spec fn user_commands(host: HostView, name: Seq<char>, project_root: Option<PathView>) -> Seq<
    PathView,
> {
    safe_executables(host, launchers(host, name, host.search_path).0, project_root)
}

/// Finds the command `name` wherever it may be used.
pub fn find_user_commands(host: &Host, name: &str, project_root: &Option<FilePath>) -> (r: Vec<
    FilePath,
>)
    ensures
        views(r@) == user_commands(host@, name@, option_view(*project_root)),
{
    let found = find_all_on_path(host, name);
    let ghost all = views(found@);
    let ghost root = option_view(*project_root);
    let mut r: Vec<FilePath> = Vec::new();
    let n: usize = found.len();
    assert(views(r@) =~= safe_executables(host@, all.take(0), root));
    for i in 0..n
        invariant
            n == found@.len(),
            all == views(found@),
            root == option_view(*project_root),
            views(r@) == safe_executables(host@, all.take(i as int), root),
    {
        proof {
            assert(all.take(i + 1).drop_last() =~= all.take(i as int));
            assert(all.take(i + 1).last() == found@[i as int]@);
        }
        if safe_user_executable(host, &found[i], project_root) {
            let ghost before = r@;
            let path = found[i].clone();
            r.push(path);
            proof {
                lemma_views_push(before, path);
            }
        }
    }
    assert(all.take(n as int) =~= all);
    r
}

/// What is found lies outside the project and the temporary directories, and
/// nobody but its owner may change it.
pub proof fn law_user_commands_are_safe(
    host: HostView,
    name: Seq<char>,
    project_root: Option<PathView>,
)
    ensures
        forall|i: int|
            0 <= i < user_commands(host, name, project_root).len() ==> is_safe_user_executable(
                host,
                #[trigger] user_commands(host, name, project_root)[i],
                project_root,
            ),
{
    lemma_safe_executables(host, launchers(host, name, host.search_path).0, project_root);
}

proof fn lemma_safe_executables(
    host: HostView,
    paths: Seq<PathView>,
    project_root: Option<PathView>,
)
    ensures
        forall|i: int|
            0 <= i < safe_executables(host, paths, project_root).len() ==> is_safe_user_executable(
                host,
                #[trigger] safe_executables(host, paths, project_root)[i],
                project_root,
            ),
    decreases paths.len(),
{
    if paths.len() > 0 {
        lemma_safe_executables(host, paths.drop_last(), project_root);
        let before = safe_executables(host, paths.drop_last(), project_root);
        let after = safe_executables(host, paths, project_root);
        assert forall|i: int| 0 <= i < after.len() implies is_safe_user_executable(
            host,
            #[trigger] after[i],
            project_root,
        ) by {
            if i < before.len() {
                assert(after[i] == before[i]);
            }
        }
    }
}

/// The places where a trusted executable may be, in the order of preference.
pub open spec fn system_places(platform: Platform, name: Seq<char>) -> Seq<PathView> {
    match platform {
        Platform::Unix => seq![
            path_child(unix_path("/usr/bin"@), name),
            path_child(unix_path("/bin"@), name),
            path_child(unix_path("/usr/sbin"@), name),
            path_child(unix_path("/sbin"@), name),
        ],
        Platform::Windows => Seq::empty(),
    }
}

/// The places where a trusted executable may be, in the order of preference.
pub fn system_candidates(platform: Platform, name: &str) -> (r: Vec<FilePath>)
    ensures
        views(r@) == system_places(platform, name@),
{
    let mut r: Vec<FilePath> = Vec::new();
    match platform {
        Platform::Unix => {
            r.push(FilePath::unix("/usr/bin").child(name));
            r.push(FilePath::unix("/bin").child(name));
            r.push(FilePath::unix("/usr/sbin").child(name));
            r.push(FilePath::unix("/sbin").child(name));
        },
        Platform::Windows => {},
    }
    assert(views(r@) =~= system_places(platform, name@));
    r
}

/// Whether a file belongs to the superuser, who alone may change it.
pub open spec fn trusted(host: HostView, path: PathView) -> bool {
    match find_facts(host.paths, path) {
        Some(facts) => facts.is_file && facts.owned_by_root && mode_is_safe(facts.mode),
        None => false,
    }
}

/// The canonical form of the first of `places` at which a trusted file is found.
pub open spec fn first_trusted(host: HostView, places: Seq<PathView>) -> Option<PathView>
    decreases places.len(),
{
    if places.len() == 0 {
        None
    } else {
        match host.canonical(places[0]) {
            Some(canonical) => if host.is_file(places[0]) && trusted(host, canonical) {
                Some(canonical)
            } else {
                first_trusted(host, places.drop_first())
            },
            None => first_trusted(host, places.drop_first()),
        }
    }
}

pub fn trusted_root_owned_file(host: &Host, path: &FilePath) -> (r: bool)
    ensures
        r == trusted(host@, path@),
{
    match host.facts(path) {
        Some(facts) => facts.is_file && facts.owned_by_root && facts.mode & 0o111 != 0 && facts.mode
            & 0o022 == 0,
        None => false,
    }
}

pub fn find_trusted_system_executable(host: &Host, name: &str) -> (r: Option<FilePath>)
    ensures
        option_view(r) == first_trusted(host@, system_places(host@.platform, name@)),
{
    let places = system_candidates(host.platform, name);
    let ghost all = views(places@);
    let n: usize = places.len();
    let mut i: usize = 0;
    assert(all.skip(0) =~= all);
    while i < n
        invariant
            n == places@.len(),
            all == views(places@),
            all == system_places(host@.platform, name@),
            i <= n,
            first_trusted(host@, all) == first_trusted(host@, all.skip(i as int)),
        decreases n - i,
    {
        assert(all.skip(i as int)[0] == places@[i as int]@);
        assert(all.skip(i as int).drop_first() =~= all.skip(i + 1));
        if host.is_file(&places[i]) {
            if let Some(canonical) = canonicalize(host, &places[i]) {
                if trusted_root_owned_file(host, &canonical) {
                    return Some(canonical);
                }
            }
        }
        i = i + 1;
    }
    None
}

/// Only a file that belongs to the superuser, and that nobody else may change, is
/// ever trusted.
pub proof fn law_trusted_belongs_to_root(host: HostView, places: Seq<PathView>)
    ensures
        first_trusted(host, places) matches Some(found) ==> trusted(host, found),
    decreases places.len(),
{
    if places.len() > 0 {
        law_trusted_belongs_to_root(host, places.drop_first());
    }
}

/// A tool of the system is looked for in `/usr/bin`, `/bin`, `/usr/sbin` and `/sbin`, in
/// this order, and on Windows nowhere.
pub proof fn law_system_tools_are_looked_for(name: Seq<char>)
    ensures
        system_places(Platform::Windows, name).len() == 0,
        ({
            let places = system_places(Platform::Unix, name);
            &&& places.len() == 4
            &&& places[0] == path_child(unix_path("/usr/bin"@), name)
            &&& places[1] == path_child(unix_path("/bin"@), name)
            &&& places[2] == path_child(unix_path("/usr/sbin"@), name)
            &&& places[3] == path_child(unix_path("/sbin"@), name)
        }),
{
}

/// A mode is safe if somebody may execute the file, and neither its group nor others may
/// write to it.
pub proof fn law_safe_modes(mode: u32)
    ensures
        mode_is_safe(mode) <==> (mode & 0o100 != 0 || mode & 0o010 != 0 || mode & 0o001 != 0) && mode
            & 0o020 == 0 && mode & 0o002 == 0,
{
    assert((mode & 0o111 != 0 && mode & 0o022 == 0) <==> ((mode & 0o100 != 0 || mode & 0o010 != 0
        || mode & 0o001 != 0) && mode & 0o020 == 0 && mode & 0o002 == 0)) by (bit_vector);
}

/// Whether a file is found at `place` that leads to one which belongs to the superuser
/// and which nobody else may change.
pub open spec fn trusted_at(host: HostView, place: PathView) -> bool {
    host.is_file(place) && (host.canonical(place) matches Some(file) && (find_facts(
        host.paths,
        file,
    ) matches Some(facts) && facts.is_file && facts.owned_by_root && mode_is_safe(facts.mode)))
}

/// The tool that is taken is the one that the first trusted place leads to; none is
/// taken if and only if no place is trusted.
pub proof fn law_first_trusted_tool_is_taken(host: HostView, places: Seq<PathView>, k: int)
    ensures
        0 <= k < places.len() && trusted_at(host, places[k]) && (forall|j: int|
            0 <= j < k ==> !trusted_at(host, #[trigger] places[j])) ==> first_trusted(host, places)
            == host.canonical(places[k]),
        (forall|j: int| 0 <= j < places.len() ==> !trusted_at(host, #[trigger] places[j]))
            ==> first_trusted(host, places) is None,
    decreases places.len(),
{
    if places.len() > 0 {
        let rest = places.drop_first();
        assert(forall|j: int| 0 <= j < rest.len() ==> #[trigger] rest[j] == places[j + 1]);
        law_first_trusted_tool_is_taken(host, rest, k - 1);
        if 0 < k < places.len() {
            assert(rest[k - 1] == places[k]);
        }
    }
}

/// Every command on the search path is found: if a directory of the path holds a file of
/// the name of the command, then that file, or another of that name that leads to the
/// same place, is among the commands. On Windows the name ends in `.exe`.
pub proof fn law_every_command_on_the_path_is_found(
    host: HostView,
    name: Seq<char>,
    directories: Seq<PathView>,
    i: int,
)
    requires
        0 <= i < directories.len(),
        launch_directory(host, directories[i]) is Some,
        ({
            let file = path_child(
                launch_directory(host, directories[i])->0,
                match host.platform {
                    Platform::Windows => name + ".exe"@,
                    Platform::Unix => name,
                },
            );
            host.is_file(file) && host.canonical(file) is Some
        }),
    ensures
        ({
            let file = path_child(
                launch_directory(host, directories[i])->0,
                match host.platform {
                    Platform::Windows => name + ".exe"@,
                    Platform::Unix => name,
                },
            );
            exists|k: int|
                0 <= k < launchers(host, name, directories).0.len() && (host.canonical(
                    #[trigger] launchers(host, name, directories).0[k],
                ) matches Some(identity) && path_same(identity, host.canonical(file)->0))
        }),
    decreases directories.len(),
{
    let file = path_child(
        launch_directory(host, directories[i])->0,
        file_name(host.platform, name),
    );
    let rest = directories.drop_last();
    let before = launchers(host, name, rest);
    let all = launchers(host, name, directories);
    lemma_identities(host, name, rest);
    lemma_identities(host, name, directories);
    if i < rest.len() {
        assert(rest[i] == directories[i]);
        law_every_command_on_the_path_is_found(host, name, rest, i);
        let k = choose|k: int|
            0 <= k < before.0.len() && (host.canonical(#[trigger] before.0[k]) matches Some(identity)
                && path_same(identity, host.canonical(file)->0));
        assert(all.0[k] == before.0[k]);
    } else {
        let identity = host.canonical(file)->0;
        if has_path(before.1, identity) {
            let k = choose|k: int|
                0 <= k < before.1.len() && path_same(#[trigger] before.1[k], identity);
            assert(all.0[k] == before.0[k]);
            assert(host.canonical(all.0[k]) == Some(before.1[k]));
        } else {
            let k = before.0.len() as int;
            assert(all.0[k] == file);
        }
    }
}

proof fn lemma_identities(host: HostView, name: Seq<char>, directories: Seq<PathView>)
    ensures
        launchers(host, name, directories).0.len() == launchers(host, name, directories).1.len(),
        forall|k: int|
            0 <= k < launchers(host, name, directories).0.len() ==> host.canonical(
                #[trigger] launchers(host, name, directories).0[k],
            ) == Some(launchers(host, name, directories).1[k]) && host.is_file(
                launchers(host, name, directories).0[k],
            ),
    decreases directories.len(),
{
    if directories.len() > 0 {
        lemma_identities(host, name, directories.drop_last());
    }
}

/// Whether the user may be handed what `path` leads to: it lies neither in the project nor
/// among temporary files, and nobody else may change it.
pub open spec fn usable_command(
    host: HostView,
    path: PathView,
    project_root: Option<PathView>,
) -> bool {
    host.canonical(path) matches Some(file) && {
        &&& project_root matches Some(root) ==> !path_under(file, root)
        &&& forall|i: int|
            0 <= i < temporary_places(host).len() ==> (host.canonical(
                #[trigger] temporary_places(host)[i],
            ) matches Some(place) ==> !path_under(file, place))
        &&& find_facts(host.paths, file) matches Some(facts) && facts.is_file && match host.platform {
            Platform::Unix => mode_is_safe(facts.mode),
            Platform::Windows => extension(file) matches Some(ending) && lower(ending) == lower(
                "exe"@,
            ),
        }
    }
}

/// The commands that may be used are the commands that were found and are usable, in
/// their order: each that is found is kept if and only if it is usable.
pub proof fn law_usable_commands_are_kept(
    host: HostView,
    paths: Seq<PathView>,
    more: PathView,
    project_root: Option<PathView>,
)
    ensures
        safe_executables(host, Seq::empty(), project_root) == Seq::<PathView>::empty(),
        usable_command(host, more, project_root) ==> safe_executables(
            host,
            paths.push(more),
            project_root,
        ) == safe_executables(host, paths, project_root).push(more),
        !usable_command(host, more, project_root) ==> safe_executables(
            host,
            paths.push(more),
            project_root,
        ) == safe_executables(host, paths, project_root),
{
    assert(paths.push(more).drop_last() =~= paths);
    let places = temporary_places(host);
    let roots = distinct_canonical(host, places);
    lemma_distinct_canonical(host, places);
    if let Some(file) = host.canonical(more) {
        if under_any(file, roots) {
            let i = choose|i: int| 0 <= i < roots.len() && path_under(file, #[trigger] roots[i]);
            assert(roots.contains(roots[i]));
            let k = choose|k: int|
                0 <= k < places.len() && host.canonical(#[trigger] places[k]) == Some(roots[i]);
            assert(host.canonical(temporary_places(host)[k]) == Some(roots[i]));
        } else {
            assert forall|i: int| 0 <= i < temporary_places(host).len() implies (host.canonical(
                #[trigger] temporary_places(host)[i],
            ) matches Some(place) ==> !path_under(file, place)) by {
                if let Some(place) = host.canonical(places[i]) {
                    assert(has_path(roots, place));
                    let m = choose|m: int|
                        0 <= m < roots.len() && path_same(#[trigger] roots[m], place);
                    assert(!path_under(file, roots[m]));
                }
            }
        }
    }
}

proof fn lemma_distinct_canonical(host: HostView, list: Seq<PathView>)
    ensures
        forall|p: PathView| #[trigger]
            distinct_canonical(host, list).contains(p) ==> exists|k: int|
                0 <= k < list.len() && host.canonical(#[trigger] list[k]) == Some(p),
        forall|k: int|
            0 <= k < list.len() ==> (host.canonical(#[trigger] list[k]) matches Some(p) ==> has_path(
                distinct_canonical(host, list),
                p,
            )),
    decreases list.len(),
{
    if list.len() > 0 {
        let rest = list.drop_last();
        let before = distinct_canonical(host, rest);
        let all = distinct_canonical(host, list);
        lemma_distinct_canonical(host, rest);
        assert forall|p: PathView| #[trigger] all.contains(p) implies exists|k: int|
            0 <= k < list.len() && host.canonical(#[trigger] list[k]) == Some(p) by {
            if before.contains(p) {
                let k = choose|k: int|
                    0 <= k < rest.len() && host.canonical(#[trigger] rest[k]) == Some(p);
                assert(host.canonical(list[k]) == Some(p));
            } else {
                let m = choose|m: int| 0 <= m < all.len() && all[m] == p;
                if m < before.len() {
                    assert(before[m] == p);
                }
                assert(host.canonical(list[list.len() - 1]) == Some(p));
            }
        }
        assert forall|k: int| 0 <= k < list.len() implies (host.canonical(
            #[trigger] list[k],
        ) matches Some(p) ==> has_path(all, p)) by {
            if let Some(p) = host.canonical(list[k]) {
                if k < rest.len() {
                    assert(rest[k] == list[k]);
                    assert(has_path(before, p));
                    let m = choose|m: int| 0 <= m < before.len() && path_same(#[trigger] before[m], p);
                    assert(all[m] == before[m]);
                } else if has_path(before, p) {
                    let m = choose|m: int| 0 <= m < before.len() && path_same(#[trigger] before[m], p);
                    assert(all[m] == before[m]);
                } else {
                    assert(all[all.len() - 1] == p);
                    assert(path_same(all[all.len() - 1], p));
                }
            }
        }
    }
}

/// The version of a manager is the first line that is not blank, trimmed, of what it
/// printed, the ordinary output before the errors; if there is none it is not known.
pub proof fn law_version_is_the_first_line(output: OutputView, k: int)
    ensures
        version_line(None) == "version unknown"@,
        ({
            let list = lines(output.stdout) + lines(output.stderr);
            &&& 0 <= k < list.len() && trim(list[k]).len() > 0 && (forall|j: int|
                0 <= j < k ==> trim(#[trigger] list[j]).len() == 0) ==> version_line(Some(output))
                == trim(list[k])
            &&& (forall|j: int| 0 <= j < list.len() ==> trim(#[trigger] list[j]).len() == 0)
                ==> version_line(Some(output)) == "version unknown"@
        }),
{
    law_first_line(lines(output.stdout) + lines(output.stderr), k);
}

/// The first line is the first of which trimming leaves something, trimmed.
pub proof fn law_first_line(list: Seq<Seq<char>>, k: int)
    ensures
        0 <= k < list.len() && trim(list[k]).len() > 0 && (forall|j: int|
            0 <= j < k ==> trim(#[trigger] list[j]).len() == 0) ==> first_line(list) == Some(
            trim(list[k]),
        ),
        (forall|j: int| 0 <= j < list.len() ==> trim(#[trigger] list[j]).len() == 0) ==> first_line(
            list,
        ) is None,
    decreases list.len(),
{
    if list.len() > 0 {
        let rest = list.drop_first();
        assert(forall|j: int| 0 <= j < rest.len() ==> #[trigger] rest[j] == list[j + 1]);
        law_first_line(rest, k - 1);
        if 0 < k < list.len() {
            assert(rest[k - 1] == list[k]);
        }
    }
}

/// What was read from a process is handed on if it ended and printed no more than it may,
/// with how it ended and its two streams, each in its place; everything else is an error,
/// whose kind says what happened.
pub proof fn law_capture_hands_on_what_was_printed(
    program: PathView,
    seconds: nat,
    limit: nat,
    event: CaptureEvent,
)
    ensures
        ({
            let r = captured(program, seconds, limit, event);
            match event {
                CaptureEvent::Ended { success, code, stdout, stderr } => if stdout@.len()
                    + stderr@.len() <= limit {
                    r matches Ok(output) && output.success == success && output.code == code
                        && output.stdout == lossy_text(stdout@) && output.stderr == lossy_text(
                        stderr@,
                    )
                } else {
                    r matches Err(e) && e.kind == ErrorKind::LimitExceeded
                },
                CaptureEvent::TimedOut => r matches Err(e) && e.kind == ErrorKind::TimedOut,
                CaptureEvent::NotStarted(cause) => r matches Err(e) && e.kind
                    == ErrorKind::CannotRun && e.cause == Some(cause@),
                CaptureEvent::NotAwaited(cause) => r matches Err(e) && e.kind
                    == ErrorKind::CannotRun && e.cause == Some(cause@),
                CaptureEvent::NoStream(_) => r matches Err(e) && e.kind == ErrorKind::CannotRead,
                CaptureEvent::NotRead(_, BoundedReadError::Io(cause)) => r matches Err(e) && e.kind
                    == ErrorKind::CannotRead && e.cause == Some(cause@),
                CaptureEvent::NotRead(_, BoundedReadError::LimitExceeded) => r matches Err(e)
                    && e.kind == ErrorKind::LimitExceeded,
            }
        }),
{
}

/// An empty chunk ends a stream; any other is taken if what was read and it are within the
/// limit, and no chunk takes what was read above the limit.
pub proof fn law_chunks_stay_within_the_limit(budget: CaptureBudget, count: nat)
    ensures
        count == 0 <==> chunk_step(budget, count as int) == ReadStep::End,
        count > 0 && budget.captured + count <= budget.limit <==> chunk_step(budget, count as int)
            == ReadStep::More,
        count > 0 && budget.captured + count > budget.limit <==> chunk_step(budget, count as int)
            == ReadStep::LimitExceeded,
{
}

/// A stream that cannot be read is told by its name and the program, with the cause; one
/// that is too long, by the program and the limit.
pub proof fn law_unread_streams_are_told(
    program: PathView,
    stream: Seq<char>,
    limit: nat,
    error: BoundedReadError,
)
    ensures
        ({
            let e = read_error(program, stream, limit, error);
            match error {
                BoundedReadError::Io(cause) => e.kind == ErrorKind::CannotRead && e.message
                    == "failed to read "@ + stream + " from "@ + path_text(program) && e.cause
                    == Some(cause@),
                BoundedReadError::LimitExceeded => e.kind == ErrorKind::LimitExceeded && e.message
                    == path_text(program) + " combined stdout/stderr exceeded the "@ + decimal(
                    limit,
                ) + "-byte capture limit; process terminated"@,
            }
        }),
{
}

/// A probe has four seconds and 64 KiB of output, a search twenty seconds and four MiB, and
/// each asks for the program and the arguments that it is given.
pub proof fn law_requests_are_bounded(
    program: PathView,
    args: Seq<Seq<char>>,
    prefixes: Seq<Seq<char>>,
    env: Seq<(Seq<char>, Seq<char>)>,
    cwd: Option<PathView>,
)
    ensures
        ({
            let probe = version_request(program, args, prefixes, env, cwd);
            let search = search_request(program, args, prefixes, env);
            &&& probe.seconds == 4 && probe.limit == 64 * 1024
            &&& search.seconds == 20 && search.limit == 4 * 1024 * 1024
            &&& probe.program == program && search.program == program
            &&& probe.args == args && search.args == args
            &&& probe.env_remove_prefixes == prefixes && search.env_remove_prefixes == prefixes
            &&& probe.env == env && search.env == env
            &&& probe.cwd == cwd && search.cwd is None
        }),
{
}

/// The file of a command has its name, and on Windows `.exe` behind it.
pub proof fn law_command_files(name: Seq<char>)
    ensures
        file_name(Platform::Unix, name) == name,
        file_name(Platform::Windows, name) == name + seq!['.', 'e', 'x', 'e'],
{
    reveal_strlit(".exe");
    assert(".exe"@ =~= seq!['.', 'e', 'x', 'e']);
}

/// The extension of a file is what follows the last dot of its name, if something stands
/// before that dot.
pub proof fn law_extensions(p: PathView, stem: Seq<char>, ending: Seq<char>)
    requires
        p.parts.len() > 0,
        !ending.contains('.'),
        ending.len() > 0,
        shown_name(p.parts[p.parts.len() - 1]) == stem.push('.') + ending,
    ensures
        stem.len() > 0 ==> extension(p) == Some(ending),
        stem.len() == 0 ==> extension(p) is None,
{
    let name = stem.push('.') + ending;
    law_split_at_the_last(stem, '.', ending);
    reveal_strlit("..");
    if name == ".."@ {
        assert(name[name.len() - 1] == ending[ending.len() - 1]);
        assert(ending.contains(ending[ending.len() - 1]));
    }
}

} // verus!
