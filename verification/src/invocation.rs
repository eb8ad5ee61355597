//! One invocation from its arguments to its end: which working directory the
//! command gets, what is said on the way, and how the result is passed on.

use crate::bind;
use crate::bind::{requests, BindSpec, BindView};
use crate::bytes;
use crate::cli;
use crate::cli::{asked_binds, BindArg};
use crate::linux::status;
use crate::linux::status::{farewell_of, status_text, ChildStatus, Farewell};
use crate::mapping::{projected, resolved, Binding};
use crate::number;
use crate::number::decimal;
use crate::path::{normalized, SEPARATOR};
use crate::text;
use crate::text::shown;
use vstd::prelude::*;

verus! {

/// No such entry.
pub const ENOENT: i32 = 2;

/// The exit code for arguments that cannot be read.
pub const USAGE_EXIT: i32 = 2;

/// The exit code for everything else that goes wrong.
pub const FAILURE_EXIT: i32 = 1;

/// The only argument of the process that a probe runs.
pub const PROBE_CHILD_ARG: &'static str = "__pathshim_probe_child";

/// Turns the mappings of the command line into mappings to open.
pub fn bind_specs(binds: Vec<BindArg>) -> (specs: Vec<BindSpec>)
    ensures
        requests(specs@) == asked_binds(binds@),
{
    let ghost asked = asked_binds(binds@);
    let mut specs: Vec<BindSpec> = Vec::new();
    let mut i: usize = 0;
    while i < binds.len()
        invariant
            i <= binds.len(),
            asked == asked_binds(binds@),
            specs@.len() == i,
            forall|j: int| 0 <= j < i ==> (#[trigger] specs@[j])@ == asked[j],
        decreases binds.len() - i,
    {
        specs.push(
            BindSpec {
                source: bytes::copy(binds[i].source.as_slice()),
                destination: bytes::copy(binds[i].destination.as_slice()),
            },
        );
        assert(specs@[i as int]@ == asked[i as int]);
        i += 1;
    }
    assert(requests(specs@) =~= asked);
    specs
}

/// Whether the arguments are those of the process that a probe runs.
pub fn is_probe_child(args: &Vec<Vec<u8>>) -> (found: bool)
    ensures
        found == (args@.len() == 1 && args@[0]@ == cli::word(PROBE_CHILD_ARG@)),
{
    args.len() == 1 && bytes::equal(args[0].as_slice(), PROBE_CHILD_ARG.as_bytes())
}

/// A command as it is started: its program and arguments, and the working
/// directory and `PWD` that it is given, where it does not inherit them.
#[derive(Debug, PartialEq, Eq)]
pub struct Launch {
    pub program: Vec<u8>,
    pub args: Vec<Vec<u8>>,
    pub current_dir: Option<Vec<u8>>,
    pub pwd: Option<Vec<u8>>,
}

/// A command as a value.
pub ghost struct Started {
    pub program: Seq<u8>,
    pub args: Seq<Seq<u8>>,
    pub current_dir: Option<Seq<u8>>,
    pub pwd: Option<Seq<u8>>,
}

impl View for Launch {
    type V = Started;

    open spec fn view(&self) -> Started {
        Started {
            program: self.program@,
            args: bytes::rows(self.args@),
            current_dir: bytes::seen(self.current_dir),
            pwd: bytes::seen(self.pwd),
        }
    }
}

impl Launch {
    /// A command that inherits everything.
    pub fn new(program: Vec<u8>, args: Vec<Vec<u8>>) -> (launch: Launch)
        ensures
            launch@ == (Started {
                program: program@,
                args: bytes::rows(args@),
                current_dir: None,
                pwd: None,
            }),
    {
        Launch { program, args, current_dir: None, pwd: None }
    }
}

/// The command as it starts in a guest directory.
pub open spec fn configured(command: Started, guest_cwd: Seq<u8>) -> Started {
    Started { current_dir: Some(guest_cwd), pwd: Some(guest_cwd), ..command }
}

/// The command as it is run without the view.
pub open spec fn plain(command: Started) -> Started {
    Started { current_dir: None, pwd: None, ..command }
}

/// Starts the command in a guest directory and tells it so.
pub fn configure_virtual_environment(launch: &mut Launch, guest_cwd: &[u8])
    ensures
        final(launch)@ == configured(old(launch)@, guest_cwd@),
{
    launch.current_dir = Some(bytes::copy(guest_cwd));
    launch.pwd = Some(bytes::copy(guest_cwd));
}

/// The command as it is run without the view: the same program and arguments,
/// with the caller's working directory and environment.
pub fn passthrough_command(launch: &Launch) -> (command: Launch)
    ensures
        command@ == plain(launch@),
{
    let mut args: Vec<Vec<u8>> = Vec::new();
    let mut i: usize = 0;
    while i < launch.args.len()
        invariant
            i <= launch.args.len(),
            args@.len() == i,
            forall|j: int| 0 <= j < i ==> (#[trigger] args@[j])@ == launch.args@[j]@,
        decreases launch.args.len() - i,
    {
        args.push(bytes::copy(launch.args[i].as_slice()));
        i += 1;
    }
    assert(bytes::rows(args@) =~= bytes::rows(launch.args@));
    Launch { program: bytes::copy(launch.program.as_slice()), args, current_dir: None, pwd: None }
}

/// A diagnostic as it is shown, unless diagnostics are suppressed.
pub open spec fn said(quiet: bool, message: Seq<char>) -> Option<Seq<char>> {
    if quiet {
        None
    } else {
        Some("pathshim: "@ + message)
    }
}

/// A diagnostic as it is shown, unless diagnostics are suppressed.
pub fn diagnostic(quiet: bool, message: &str) -> (line: Option<String>)
    ensures
        text::written(line) == said(quiet, message@),
{
    if quiet {
        None
    } else {
        Some(text::concat2("pathshim: ", message))
    }
}

/// What is said when the mappings cannot be opened.
pub fn view_unavailable(quiet: bool, binds: usize, error: &str) -> (line: Option<String>)
    ensures
        text::written(line) == said(
            quiet,
            "collect mode=passthrough reason=bind-view-unavailable binds="@ + decimal(
                binds as int,
            ) + " error="@ + error@,
        ),
{
    let count = number::render_count(binds);
    let mut message = text::concat3(
        "collect mode=passthrough reason=bind-view-unavailable binds=",
        count.as_str(),
        " error=",
    );
    message.append(error);
    diagnostic(quiet, message.as_str())
}

/// The working directory that the command gets.
#[derive(Debug, PartialEq, Eq)]
pub enum GuestCwd<P> {
    /// The directory is there.
    Use(P),
    /// The directory is created at its physical path first.
    Create { guest: P, physical: P },
    /// It cannot be had; the command starts at the root.
    Fallback(i32),
}

impl View for GuestCwd<Vec<u8>> {
    type V = GuestCwd<Seq<u8>>;

    open spec fn view(&self) -> GuestCwd<Seq<u8>> {
        match *self {
            GuestCwd::Use(path) => GuestCwd::Use(path@),
            GuestCwd::Create { guest, physical } => GuestCwd::Create {
                guest: guest@,
                physical: physical@,
            },
            GuestCwd::Fallback(error) => GuestCwd::Fallback(error),
        }
    }
}

/// The working directory that the command gets.
pub open spec fn chosen_cwd(
    binds: Seq<Binding>,
    requested: Seq<u8>,
    found: Result<bool, i32>,
) -> GuestCwd<Seq<u8>> {
    match found {
        Ok(true) => GuestCwd::Use(normalized(requested)),
        Ok(false) => GuestCwd::Fallback(bind::ENOTDIR),
        Err(error) => if error != ENOENT {
            GuestCwd::Fallback(error)
        } else if projected(binds, requested) {
            GuestCwd::Create {
                guest: normalized(requested),
                physical: resolved(binds, requested),
            }
        } else {
            GuestCwd::Fallback(bind::ENOTSUP)
        },
    }
}

/// Chooses the working directory that the command gets, given what a look at the
/// physical path of the requested one found: one that is missing is created if a
/// mapping holds it.
pub fn guest_cwd(view: &BindView, requested: &[u8], found: Result<bool, i32>) -> (choice: GuestCwd<
    Vec<u8>,
>)
    ensures
        choice@ == chosen_cwd(view@, requested@, found),
{
    match view.resolve_directory(requested, found) {
        Ok(path) => GuestCwd::Use(path),
        Err(error) => if error == ENOENT {
            match view.create_directory_all(requested) {
                Ok(plan) => GuestCwd::Create { guest: plan.guest, physical: plan.physical },
                Err(error) => GuestCwd::Fallback(error),
            }
        } else {
            GuestCwd::Fallback(error)
        },
    }
}

/// What is said when the working directory was created.
pub fn cwd_created(quiet: bool, guest: &[u8]) -> (line: Option<String>)
    ensures
        text::written(line) == said(quiet, "created guest cwd path="@ + shown(guest@)),
{
    let words = text::show(guest);
    let message = text::concat2("created guest cwd path=", words.as_str());
    diagnostic(quiet, message.as_str())
}

/// The working directory that stands in for one that cannot be had, and what is
/// said about it.
pub fn fallback_guest_cwd(quiet: bool, requested: &[u8], error: &str) -> (answer: (
    Vec<u8>,
    Option<String>,
))
    ensures
        answer.0@ == seq![SEPARATOR],
        text::written(answer.1) == said(
            quiet,
            "guest cwd unavailable requested="@ + shown(requested@) + " fallback=/ error="@
                + error@,
        ),
{
    let words = text::show(requested);
    let mut message = text::concat3(
        "guest cwd unavailable requested=",
        words.as_str(),
        " fallback=/ error=",
    );
    message.append(error);
    let mut root: Vec<u8> = Vec::new();
    root.push(SEPARATOR);
    assert(root@ =~= seq![SEPARATOR]);
    (root, diagnostic(quiet, message.as_str()))
}

/// How an attempt to run a command with the view ended.
#[derive(Debug)]
pub enum RunOutcome<T> {
    Exited(ChildStatus),
    /// The command has not started.
    Unavailable(T),
    /// The command has started, but its end is not known.
    Failed(T),
}

impl View for RunOutcome<String> {
    type V = RunOutcome<Seq<char>>;

    open spec fn view(&self) -> RunOutcome<Seq<char>> {
        match *self {
            RunOutcome::Exited(status) => RunOutcome::Exited(status),
            RunOutcome::Unavailable(reason) => RunOutcome::Unavailable(reason@),
            RunOutcome::Failed(error) => RunOutcome::Failed(error@),
        }
    }
}

/// How an invocation ends.
#[derive(Debug)]
pub enum Ending<T> {
    /// The caller is told how the command ended.
    Pass(Farewell),
    /// The command is run without the view, after a diagnostic.
    Passthrough { diagnostic: Option<T> },
    /// The line is shown, and the exit code is 1.
    Fail { line: T },
}

impl View for Ending<String> {
    type V = Ending<Seq<char>>;

    open spec fn view(&self) -> Ending<Seq<char>> {
        match *self {
            Ending::Pass(farewell) => Ending::Pass(farewell),
            Ending::Passthrough { diagnostic } => Ending::Passthrough {
                diagnostic: text::written(diagnostic),
            },
            Ending::Fail { line } => Ending::Fail { line: line@ },
        }
    }
}

/// How an invocation ends.
pub open spec fn ended(outcome: RunOutcome<Seq<char>>, quiet: bool) -> Ending<Seq<char>> {
    match outcome {
        RunOutcome::Exited(status) => Ending::Pass(farewell_of(status)),
        RunOutcome::Unavailable(reason) => Ending::Passthrough {
            diagnostic: said(quiet, "collect mode=passthrough reason="@ + reason),
        },
        RunOutcome::Failed(error) => Ending::Fail {
            line: "pathshim: bind view failed after command startup: "@ + error,
        },
    }
}

/// Ends an invocation.
pub fn run(outcome: RunOutcome<String>, quiet: bool) -> (ending: Ending<String>)
    requires
        outcome@ matches RunOutcome::Exited(ChildStatus::Signaled(signal)) ==> signal <= i32::MAX
            - 128,
    ensures
        ending@ == ended(outcome@, quiet),
        match outcome@ {
            RunOutcome::Exited(ChildStatus::Exited(code)) => ending@ == Ending::<Seq<char>>::Pass(
                Farewell::Exit(code),
            ),
            RunOutcome::Exited(ChildStatus::Signaled(signal)) => ending@ == Ending::<
                Seq<char>,
            >::Pass(Farewell::Raise { signal, otherwise: (128 + signal) as i32 }),
            RunOutcome::Unavailable(reason) => ending@ == (Ending::Passthrough {
                diagnostic: said(quiet, "collect mode=passthrough reason="@ + reason),
            }),
            RunOutcome::Failed(error) => ending@ == (Ending::Fail {
                line: "pathshim: bind view failed after command startup: "@ + error,
            }),
        },
{
    match outcome {
        RunOutcome::Exited(status) => Ending::Pass(status::exit_with_status(status)),
        RunOutcome::Unavailable(reason) => {
            let message = text::concat2("collect mode=passthrough reason=", reason.as_str());
            Ending::Passthrough { diagnostic: diagnostic(quiet, message.as_str()) }
        },
        RunOutcome::Failed(error) => Ending::Fail {
            line: text::concat2(
                "pathshim: bind view failed after command startup: ",
                error.as_str(),
            ),
        },
    }
}

/// What is said when the command cannot be executed.
pub fn exec(program: &[u8], error: &str) -> (line: String)
    ensures
        line@ == "pathshim: cannot execute command `"@ + shown(program@) + "`: "@ + error@,
{
    let words = text::show(program);
    let mut line = text::concat3("pathshim: cannot execute command `", words.as_str(), "`: ");
    line.append(error);
    line
}

/// What is said when the arguments cannot be read.
pub fn usage_error(error: &str) -> (message: String)
    ensures
        message@ == "pathshim: "@ + error@ + "\n\n"@ + cli::HELP@,
{
    let mut message = text::concat3("pathshim: ", error, "\n\n");
    message.append(cli::HELP);
    message
}

/// The report of a probe: a line for the standard output, one for the standard
/// error, and the exit code.
#[derive(Debug, PartialEq, Eq)]
pub struct Report {
    pub output: String,
    pub error: Option<String>,
    pub code: i32,
}

/// A report as a value.
pub ghost struct Told {
    pub output: Seq<char>,
    pub error: Option<Seq<char>>,
    pub code: i32,
}

impl View for Report {
    type V = Told;

    open spec fn view(&self) -> Told {
        Told { output: self.output@, error: text::written(self.error), code: self.code }
    }
}

/// The report that the view is not available.
pub open spec fn not_available(reason: Seq<char>) -> Told {
    Told {
        output: "passthrough"@,
        error: Some("pathshim: probe mode=passthrough reason="@ + reason),
        code: 1,
    }
}

/// The report that the view is not available.
pub fn probe_unavailable(reason: &str) -> (report: Report)
    ensures
        report@ == not_available(reason@),
{
    Report {
        output: "passthrough".to_owned(),
        error: Some(text::concat2("pathshim: probe mode=passthrough reason=", reason)),
        code: FAILURE_EXIT,
    }
}

/// Goes on with a probe after its mappings were opened; mappings that could not
/// be opened end it.
pub fn probe(opened: Result<BindView, String>) -> (answer: Result<BindView, Report>)
    ensures
        match (opened, answer) {
            (Ok(view), Ok(same)) => same@ == view@,
            (Err(error), Err(report)) => report@ == not_available(
                "bind-view-unavailable error="@ + error@,
            ),
            _ => false,
        },
{
    match opened {
        Ok(view) => Ok(view),
        Err(error) => {
            let reason = text::concat2("bind-view-unavailable error=", error.as_str());
            Err(probe_unavailable(reason.as_str()))
        },
    }
}

/// What a probe reports of an attempt to run its own command.
pub open spec fn probed(outcome: RunOutcome<Seq<char>>) -> Told {
    match outcome {
        RunOutcome::Exited(status) => if status == ChildStatus::Exited(0) {
            Told { output: "bind-view"@, error: None, code: 0 }
        } else {
            not_available("probe-child-failed status="@ + status_text(status))
        },
        RunOutcome::Unavailable(reason) => not_available(reason),
        RunOutcome::Failed(error) => not_available("bind-view-probe-failed error="@ + error),
    }
}

/// Reports how an attempt to run the probe's own command ended.
pub fn probe_view(outcome: RunOutcome<String>) -> (report: Report)
    ensures
        report@ == probed(outcome@),
{
    match outcome {
        RunOutcome::Exited(status) => if status == ChildStatus::Exited(0) {
            Report { output: "bind-view".to_owned(), error: None, code: 0 }
        } else {
            let words = status::display_status(status);
            let reason = text::concat2("probe-child-failed status=", words.as_str());
            probe_unavailable(reason.as_str())
        },
        RunOutcome::Unavailable(reason) => probe_unavailable(reason.as_str()),
        RunOutcome::Failed(error) => {
            let reason = text::concat2("bind-view-probe-failed error=", error.as_str());
            probe_unavailable(reason.as_str())
        },
    }
}

/// A probe succeeds exactly when its own command ran to its end under the view,
/// and it names the mode in either case.
pub proof fn law_probe_names_mode(outcome: RunOutcome<Seq<char>>)
    ensures
        probed(outcome).code == 0 <==> outcome == RunOutcome::<Seq<char>>::Exited(
            ChildStatus::Exited(0),
        ),
        probed(outcome).output == if probed(outcome).code == 0 {
            "bind-view"@
        } else {
            "passthrough"@
        },
        probed(outcome).error is None <==> probed(outcome).code == 0,
{
}

/// Diagnostics are suppressed by quiet and by nothing else, and each says whose it
/// is.
pub proof fn law_quiet_suppresses_diagnostics(message: Seq<char>)
    ensures
        said(true, message) is None,
        said(false, message) == Some("pathshim: "@ + message),
{
}

/// A command that is run without the view is the command that was asked for: the
/// working directory that it was given for the view is taken back, and its program
/// and arguments were never touched.
pub proof fn law_passthrough_takes_the_view_back(command: Started, guest_cwd: Seq<u8>)
    ensures
        configured(command, guest_cwd).current_dir == Some(guest_cwd),
        configured(command, guest_cwd).pwd == Some(guest_cwd),
        configured(command, guest_cwd).program == command.program,
        configured(command, guest_cwd).args == command.args,
        plain(configured(command, guest_cwd)) == plain(command),
        plain(command).program == command.program && plain(command).args == command.args,
        plain(command).current_dir is None && plain(command).pwd is None,
{
}

/// The command starts in the directory that was asked for, wherever it is a
/// directory; one that is missing is created where a bind projects it, at its
/// physical path and nowhere else; and anything else is given up with its error.
pub proof fn law_working_directory_is_had_where_it_can_be(
    binds: Seq<Binding>,
    requested: Seq<u8>,
    found: Result<bool, i32>,
)
    ensures
        ({
            let choice = chosen_cwd(binds, requested, found);
            let missing = found == Err::<bool, i32>(2);
            &&& choice is Use <==> found == Ok::<bool, i32>(true)
            &&& choice matches GuestCwd::Use(guest) ==> guest == normalized(requested)
            &&& choice is Create <==> missing && projected(binds, requested)
            &&& choice matches GuestCwd::Create { guest, physical } ==> guest == normalized(
                requested,
            ) && physical == resolved(binds, requested)
            &&& missing && !projected(binds, requested) ==> choice == GuestCwd::<
                Seq<u8>,
            >::Fallback(95)
            &&& found == Ok::<bool, i32>(false) ==> choice == GuestCwd::<Seq<u8>>::Fallback(20)
            &&& found matches Err(error) ==> (error != 2 ==> choice == GuestCwd::<
                Seq<u8>,
            >::Fallback(error))
        }),
{
}

/// An invocation passes the end of its command on, runs the command without the view
/// exactly where it has not started, and never runs it twice: a command that has
/// started is not run again, whatever became of it.
pub proof fn law_command_is_run_once(outcome: RunOutcome<Seq<char>>, quiet: bool)
    requires
        outcome matches RunOutcome::Exited(ChildStatus::Signaled(signal)) ==> signal <= i32::MAX
            - 128,
    ensures
        ended(outcome, quiet) is Passthrough <==> outcome is Unavailable,
        ended(outcome, quiet) is Fail <==> outcome is Failed,
        outcome matches RunOutcome::Exited(ChildStatus::Exited(code)) ==> ended(outcome, quiet)
            == Ending::<Seq<char>>::Pass(Farewell::Exit(code)),
        outcome matches RunOutcome::Exited(ChildStatus::Signaled(signal)) ==> (ended(
            outcome,
            quiet,
        ) matches Ending::Pass(Farewell::Raise { signal: raised, otherwise }) && raised == signal
            && otherwise == 128 + signal),
        outcome matches RunOutcome::Unavailable(reason) ==> ended(outcome, quiet) == (
        Ending::Passthrough {
            diagnostic: if quiet {
                None
            } else {
                Some("pathshim: "@ + ("collect mode=passthrough reason="@ + reason))
            },
        }),
        outcome matches RunOutcome::Failed(error) ==> ended(outcome, quiet) == (Ending::Fail {
            line: "pathshim: bind view failed after command startup: "@ + error,
        }),
{
}

/// A probe that fails says why, with the reason that the attempt gave, and exits
/// with 1.
pub proof fn law_failed_probe_says_why(reason: Seq<char>, status: ChildStatus)
    ensures
        probed(RunOutcome::Unavailable(reason)) == (Told {
            output: "passthrough"@,
            error: Some("pathshim: probe mode=passthrough reason="@ + reason),
            code: 1,
        }),
        status != ChildStatus::Exited(0) ==> probed(RunOutcome::Exited(status)) == probed(
            RunOutcome::Unavailable("probe-child-failed status="@ + status_text(status)),
        ),
        probed(RunOutcome::Failed(reason)) == probed(
            RunOutcome::Unavailable("bind-view-probe-failed error="@ + reason),
        ),
{
}

} // verus!
