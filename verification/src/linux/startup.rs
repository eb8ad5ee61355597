//! An attempt to run a command with the view installed, step by step, and what
//! is undone when a step fails.

use crate::linux::status::ChildStatus;
use crate::number;
use crate::number::decimal;
use crate::text;
use vstd::prelude::*;

verus! {

/// The step that an attempt is at.
#[derive(Clone, Copy, PartialEq, Eq, Structural, Debug)]
pub enum Stage {
    /// The mappings are opened once more, for the supervisor.
    Reopening,
    /// Two connected sockets are made.
    Connecting,
    /// The process for the command is made.
    Forking,
    /// The listener is received from it.
    Receiving,
    /// The supervisor is started.
    Supervising,
    /// Signals are passed on from here on.
    Forwarding,
    /// The process is told to start the probe.
    Starting,
    /// The result of the probe is awaited.
    Probing,
    /// The process is told to start the command.
    Finishing,
    /// The end of the command is awaited.
    Waiting,
    /// The attempt is over.
    Over,
}

/// How a step turned out. Errors come in words.
#[derive(Debug)]
pub enum Event<T> {
    Done,
    /// The command's process could not install a listener.
    Unavailable(T),
    /// The result of the probe: zero, or an error number with its words.
    Probed { code: i32, error: T },
    Ended(ChildStatus),
    Failed(T),
}

/// What is undone when an attempt is given up.
#[derive(Clone, Copy, PartialEq, Eq, Structural, Debug)]
pub struct Cleanup {
    /// Signals are no longer passed on.
    pub release_signals: bool,
    /// The command's process is killed.
    pub kill: bool,
    /// Its end is awaited.
    pub wait: bool,
    /// The supervisor is stopped.
    pub stop_supervisor: bool,
}

/// What is to be done next.
#[derive(Debug)]
pub enum Order<T> {
    Connect,
    Fork,
    Receive,
    Supervise,
    Forward,
    Start,
    Probe,
    /// The mode is announced, unless that is suppressed, and the command is let
    /// go.
    Finish { announcement: Option<T> },
    Wait,
    /// The command has not started and is run without the view.
    GiveUp { reason: T, cleanup: Cleanup },
    /// The command has ended.
    Exit { status: ChildStatus, cleanup: Cleanup },
    /// The end of the command cannot be awaited.
    Abort { error: T },
}

impl View for Event<String> {
    type V = Event<Seq<char>>;

    open spec fn view(&self) -> Event<Seq<char>> {
        match *self {
            Event::Done => Event::Done,
            Event::Unavailable(error) => Event::Unavailable(error@),
            Event::Probed { code, error } => Event::Probed { code, error: error@ },
            Event::Ended(status) => Event::Ended(status),
            Event::Failed(error) => Event::Failed(error@),
        }
    }
}

impl View for Order<String> {
    type V = Order<Seq<char>>;

    open spec fn view(&self) -> Order<Seq<char>> {
        match *self {
            Order::Connect => Order::Connect,
            Order::Fork => Order::Fork,
            Order::Receive => Order::Receive,
            Order::Supervise => Order::Supervise,
            Order::Forward => Order::Forward,
            Order::Start => Order::Start,
            Order::Probe => Order::Probe,
            Order::Finish { announcement } => Order::Finish { announcement: text::written(announcement) },
            Order::Wait => Order::Wait,
            Order::GiveUp { reason, cleanup } => Order::GiveUp { reason: reason@, cleanup },
            Order::Exit { status, cleanup } => Order::Exit { status, cleanup },
            Order::Abort { error } => Order::Abort { error: error@ },
        }
    }
}

/// The events that a step can turn out with.
pub open spec fn possible<T>(stage: Stage, event: Event<T>) -> bool {
    match event {
        Event::Done => stage != Stage::Probing && stage != Stage::Waiting && stage != Stage::Over,
        Event::Unavailable(_) => stage == Stage::Receiving,
        Event::Probed { code, error } => stage == Stage::Probing,
        Event::Ended(_) => stage == Stage::Waiting,
        Event::Failed(_) => stage != Stage::Over,
    }
}

/// The position of a step in an attempt.
pub open spec fn position(stage: Stage) -> int {
    match stage {
        Stage::Reopening => 0,
        Stage::Connecting => 1,
        Stage::Forking => 2,
        Stage::Receiving => 3,
        Stage::Supervising => 4,
        Stage::Forwarding => 5,
        Stage::Starting => 6,
        Stage::Probing => 7,
        Stage::Finishing => 8,
        Stage::Waiting => 9,
        Stage::Over => 10,
    }
}

/// There is a process for the command while a step is under way.
pub open spec fn has_child(stage: Stage) -> bool {
    position(Stage::Forking) < position(stage) < position(Stage::Over)
}

/// The supervisor runs while a step is under way.
pub open spec fn has_supervisor(stage: Stage) -> bool {
    position(Stage::Supervising) < position(stage) < position(Stage::Over)
}

/// Signals are passed on while a step is under way.
pub open spec fn has_forwarding(stage: Stage) -> bool {
    position(Stage::Forwarding) < position(stage) < position(Stage::Over)
}

/// What a failed step is called.
pub open spec fn cause(stage: Stage) -> Seq<char> {
    match stage {
        Stage::Reopening => "bind-view-setup-failed"@,
        Stage::Connecting => "bind-view-socket-unavailable"@,
        Stage::Forking => "bind-view-fork-unavailable"@,
        Stage::Receiving => "bind-view-listener-handshake-failed"@,
        Stage::Supervising => "bind-view-supervisor-unavailable"@,
        Stage::Forwarding => "signal-forwarding-unavailable"@,
        Stage::Starting => "bind-view-probe-start-failed"@,
        Stage::Probing => "bind-view-probe-unavailable"@,
        Stage::Finishing => "bind-view-probe-finish-failed"@,
        Stage::Waiting | Stage::Over => ""@,
    }
}

/// A reason with the error behind it.
pub open spec fn reason(cause: Seq<char>, error: Seq<char>) -> Seq<char> {
    cause + " error="@ + error
}

/// Everything that was started is undone; the command's process is killed
/// unless it ends by itself.
pub open spec fn undone(stage: Stage, kill: bool) -> Cleanup {
    Cleanup {
        release_signals: has_forwarding(stage),
        kill: kill && has_child(stage),
        wait: has_child(stage),
        stop_supervisor: has_supervisor(stage),
    }
}

/// The words that announce the view.
pub open spec fn announcement(projections: nat) -> Seq<char> {
    "pathshim: collect mode=bind-view projections="@ + decimal(projections as int)
        + " features=replace,shared-source"@
}

/// What follows the event `event` at the step `stage`.
pub open spec fn ordered(
    stage: Stage,
    event: Event<Seq<char>>,
    projections: nat,
    quiet: bool,
) -> Order<Seq<char>> {
    match event {
        Event::Failed(error) => if stage == Stage::Waiting {
            Order::Abort { error }
        } else {
            Order::GiveUp { reason: reason(cause(stage), error), cleanup: undone(stage, true) }
        },
        Event::Unavailable(error) => Order::GiveUp {
            reason: reason("bind-view-unavailable"@, error),
            cleanup: undone(stage, false),
        },
        Event::Probed { code, error } => if code == 0 {
            Order::Finish {
                announcement: if quiet {
                    None
                } else {
                    Some(announcement(projections))
                },
            }
        } else {
            Order::GiveUp {
                reason: reason("bind-view-probe-failed"@, error),
                cleanup: undone(stage, true),
            }
        },
        Event::Ended(status) => Order::Exit {
            status,
            cleanup: Cleanup {
                release_signals: true,
                kill: false,
                wait: false,
                stop_supervisor: true,
            },
        },
        Event::Done => match stage {
            Stage::Reopening => Order::Connect,
            Stage::Connecting => Order::Fork,
            Stage::Forking => Order::Receive,
            Stage::Receiving => Order::Supervise,
            Stage::Supervising => Order::Forward,
            Stage::Forwarding => Order::Start,
            Stage::Starting => Order::Probe,
            _ => Order::Wait,
        },
    }
}

/// The step that an order leads to.
pub open spec fn led_to<T>(order: Order<T>) -> Stage {
    match order {
        Order::Connect => Stage::Connecting,
        Order::Fork => Stage::Forking,
        Order::Receive => Stage::Receiving,
        Order::Supervise => Stage::Supervising,
        Order::Forward => Stage::Forwarding,
        Order::Start => Stage::Starting,
        Order::Probe => Stage::Probing,
        Order::Finish { announcement } => Stage::Finishing,
        Order::Wait => Stage::Waiting,
        _ => Stage::Over,
    }
}

/// An attempt to run a command with the view installed.
#[derive(Debug)]
pub struct Attempt {
    pub stage: Stage,
    pub projections: usize,
    pub quiet: bool,
}

/// A reason with the error behind it.
fn unavailable(cause: &str, error: &str) -> (text: String)
    ensures
        text@ == reason(cause@, error@),
{
    text::concat3(cause, " error=", error)
}

/// What is undone when an attempt is given up.
fn stop_attempt(stage: Stage, kill: bool) -> (cleanup: Cleanup)
    ensures
        cleanup == undone(stage, kill),
{
    let child = match stage {
        Stage::Reopening | Stage::Connecting | Stage::Forking | Stage::Over => false,
        _ => true,
    };
    let supervisor = match stage {
        Stage::Receiving | Stage::Supervising => false,
        _ => child,
    };
    let forwarding = match stage {
        Stage::Forwarding => false,
        _ => supervisor,
    };
    Cleanup {
        release_signals: forwarding,
        kill: kill && child,
        wait: child,
        stop_supervisor: supervisor,
    }
}

/// What a failed step is called.
fn cause_words(stage: Stage) -> (words: &'static str)
    ensures
        words@ == cause(stage),
{
    match stage {
        Stage::Reopening => "bind-view-setup-failed",
        Stage::Connecting => "bind-view-socket-unavailable",
        Stage::Forking => "bind-view-fork-unavailable",
        Stage::Receiving => "bind-view-listener-handshake-failed",
        Stage::Supervising => "bind-view-supervisor-unavailable",
        Stage::Forwarding => "signal-forwarding-unavailable",
        Stage::Starting => "bind-view-probe-start-failed",
        Stage::Probing => "bind-view-probe-unavailable",
        Stage::Finishing => "bind-view-probe-finish-failed",
        Stage::Waiting | Stage::Over => "",
    }
}

impl Attempt {
    /// An attempt with a view of `projections` mappings, at its first step.
    pub fn run(projections: usize, quiet: bool) -> (attempt: Attempt)
        ensures
            attempt == (Attempt { stage: Stage::Reopening, projections, quiet }),
    {
        Attempt { stage: Stage::Reopening, projections, quiet }
    }

    /// Goes on after a step.
    pub fn advance(&mut self, event: Event<String>) -> (order: Order<String>)
        requires
            possible(old(self).stage, event@),
        ensures
            order@ == ordered(
                old(self).stage,
                event@,
                old(self).projections as nat,
                old(self).quiet,
            ),
            *final(self) == (Attempt { stage: led_to(order@), ..*old(self) }),
    {
        let stage = self.stage;
        let order = match event {
            Event::Failed(error) => if stage == Stage::Waiting {
                Order::Abort { error }
            } else {
                Order::GiveUp {
                    reason: unavailable(cause_words(stage), error.as_str()),
                    cleanup: stop_attempt(stage, true),
                }
            },
            Event::Unavailable(error) => Order::GiveUp {
                reason: unavailable("bind-view-unavailable", error.as_str()),
                cleanup: stop_attempt(stage, false),
            },
            Event::Probed { code, error } => if code == 0 {
                let announcement = if self.quiet {
                    None
                } else {
                    let count = number::render_count(self.projections);
                    Some(
                        text::concat3(
                            "pathshim: collect mode=bind-view projections=",
                            count.as_str(),
                            " features=replace,shared-source",
                        ),
                    )
                };
                Order::Finish { announcement }
            } else {
                Order::GiveUp {
                    reason: unavailable("bind-view-probe-failed", error.as_str()),
                    cleanup: stop_attempt(stage, true),
                }
            },
            Event::Ended(status) => Order::Exit {
                status,
                cleanup: Cleanup {
                    release_signals: true,
                    kill: false,
                    wait: false,
                    stop_supervisor: true,
                },
            },
            Event::Done => match stage {
                Stage::Reopening => Order::Connect,
                Stage::Connecting => Order::Fork,
                Stage::Forking => Order::Receive,
                Stage::Receiving => Order::Supervise,
                Stage::Supervising => Order::Forward,
                Stage::Forwarding => Order::Start,
                Stage::Starting => Order::Probe,
                _ => Order::Wait,
            },
        };
        self.stage = match &order {
            Order::Connect => Stage::Connecting,
            Order::Fork => Stage::Forking,
            Order::Receive => Stage::Receiving,
            Order::Supervise => Stage::Supervising,
            Order::Forward => Stage::Forwarding,
            Order::Start => Stage::Starting,
            Order::Probe => Stage::Probing,
            Order::Finish { announcement } => Stage::Finishing,
            Order::Wait => Stage::Waiting,
            _ => Stage::Over,
        };
        order
    }
}

/// A command that has started is never started again without the view: an
/// attempt is given up only before the command is let go.
pub proof fn law_started_command_is_not_restarted(
    stage: Stage,
    event: Event<Seq<char>>,
    projections: nat,
    quiet: bool,
)
    requires
        possible(stage, event),
    ensures
        ordered(stage, event, projections, quiet) is GiveUp ==> position(stage) < position(
            Stage::Waiting,
        ),
        ordered(stage, event, projections, quiet) is Wait ==> stage == Stage::Finishing,
        stage == Stage::Waiting ==> led_to(ordered(stage, event, projections, quiet)) == Stage::Over,
{
}

/// Whatever fails before the command is let go, the command is still run: the
/// attempt is given up with a reason.
pub proof fn law_failure_before_start_gives_up(
    stage: Stage,
    error: Seq<char>,
    projections: nat,
    quiet: bool,
)
    requires
        position(stage) < position(Stage::Waiting),
    ensures
        ordered(stage, Event::Failed(error), projections, quiet) == (Order::GiveUp {
            reason: reason(cause(stage), error),
            cleanup: undone(stage, true),
        }),
{
}

/// An attempt that is given up leaves nothing behind: a process that was made is
/// awaited, a supervisor that was started is stopped, signals that were passed
/// on no longer are, and nothing is undone that was not done.
pub proof fn law_nothing_is_left_behind(
    stage: Stage,
    event: Event<Seq<char>>,
    projections: nat,
    quiet: bool,
)
    requires
        possible(stage, event),
    ensures
        ordered(stage, event, projections, quiet) matches Order::GiveUp { reason, cleanup } ==> {
            &&& cleanup.wait == has_child(stage)
            &&& cleanup.stop_supervisor == has_supervisor(stage)
            &&& cleanup.release_signals == has_forwarding(stage)
            &&& cleanup.kill ==> cleanup.wait
            &&& cleanup.kill == (has_child(stage) && !(event is Unavailable))
        },
{
}

/// The command is let go only after a probe that found nothing wrong, and each
/// step leads to the next one.
pub proof fn law_command_starts_after_probe(
    stage: Stage,
    event: Event<Seq<char>>,
    projections: nat,
    quiet: bool,
)
    requires
        possible(stage, event),
    ensures
        ({
            let order = ordered(stage, event, projections, quiet);
            &&& order is Finish ==> stage == Stage::Probing && (event matches Event::Probed {
                code,
                error,
            } && code == 0)
            &&& led_to(order) != Stage::Over ==> position(led_to(order)) == position(stage) + 1
        }),
{
}

/// The step that an attempt is at after `events`.
pub open spec fn reached(events: Seq<Event<Seq<char>>>, projections: nat, quiet: bool) -> Stage
    decreases events.len(),
{
    if events.len() == 0 {
        Stage::Reopening
    } else {
        let stage = reached(events.drop_last(), projections, quiet);
        led_to(ordered(stage, events.last(), projections, quiet))
    }
}

/// Every event of a history was possible when it came.
pub open spec fn plausible(events: Seq<Event<Seq<char>>>, projections: nat, quiet: bool) -> bool
    decreases events.len(),
{
    events.len() == 0 || (plausible(events.drop_last(), projections, quiet) && possible(
        reached(events.drop_last(), projections, quiet),
        events.last(),
    ))
}

/// In every history, a command whose end is awaited was let go once, after nine
/// steps that went well, the eighth of which was a probe that found nothing
/// wrong.
pub proof fn law_history_of_a_started_command(
    events: Seq<Event<Seq<char>>>,
    projections: nat,
    quiet: bool,
)
    requires
        plausible(events, projections, quiet),
        reached(events, projections, quiet) == Stage::Waiting,
    ensures
        events.len() == 9,
        events[7] matches Event::Probed { code, error } && code == 0,
        forall|i: int| 0 <= i < 9 && i != 7 ==> #[trigger] events[i] is Done,
{
    lemma_history(events, projections, quiet);
}

proof fn lemma_step(stage: Stage, event: Event<Seq<char>>, projections: nat, quiet: bool)
    requires
        possible(stage, event),
        led_to(ordered(stage, event, projections, quiet)) != Stage::Over,
    ensures
        stage != Stage::Over,
        position(led_to(ordered(stage, event, projections, quiet))) == position(stage) + 1,
        position(stage) == 7 ==> (event matches Event::Probed { code, error } && code == 0),
        position(stage) != 7 ==> event is Done,
{
}

proof fn lemma_history(events: Seq<Event<Seq<char>>>, projections: nat, quiet: bool)
    requires
        plausible(events, projections, quiet),
        reached(events, projections, quiet) != Stage::Over,
    ensures
        position(reached(events, projections, quiet)) == events.len(),
        events.len() > 7 ==> (events[7] matches Event::Probed { code, error } && code == 0),
        forall|i: int| 0 <= i < events.len() && i != 7 ==> #[trigger] events[i] is Done,
    decreases events.len(),
{
    if events.len() > 0 {
        let before = events.drop_last();
        let last = events.len() - 1;
        lemma_step(reached(before, projections, quiet), events.last(), projections, quiet);
        lemma_history(before, projections, quiet);
        assert forall|i: int| 0 <= i < events.len() && i != 7 implies #[trigger] events[i] is Done by {
            if i < last {
                assert(events[i] == before[i]);
            }
        }
        if last > 7 {
            assert(events[7] == before[7]);
        }
    }
}

/// The announcement is made exactly when diagnostics are not suppressed.
pub proof fn law_quiet_suppresses_announcement(error: Seq<char>, projections: nat, quiet: bool)
    ensures
        ordered(Stage::Probing, Event::Probed { code: 0, error }, projections, quiet) matches Order::Finish {
            announcement: said,
        } && (said is None) == quiet,
{
}

/// The step that the command's process is at.
#[derive(Clone, Copy, PartialEq, Eq, Structural, Debug)]
pub enum ChildStage {
    Installing,
    Sending,
    Synchronizing,
    Probing,
    Reporting,
    Finishing,
    Executing,
}

/// What the command's process does next.
#[derive(Debug)]
pub enum ChildOrder<T> {
    /// The listener is sent.
    Send,
    /// A byte from the supervisor is awaited.
    Synchronize,
    /// The mapping is tried.
    Probe,
    /// The success of the probe is reported.
    Report,
    /// A byte from the supervisor is awaited.
    Finish,
    /// The command is executed.
    Execute,
    /// The error number is reported as a setup refusal, and the process exits
    /// with 0.
    Refuse(i32),
    /// The error number is reported as the result of the probe, and the process
    /// exits with 0.
    ReportFailure(i32),
    /// The message is shown, and the process exits with 1.
    Die(T),
}

impl View for ChildOrder<String> {
    type V = ChildOrder<Seq<char>>;

    open spec fn view(&self) -> ChildOrder<Seq<char>> {
        match *self {
            ChildOrder::Send => ChildOrder::Send,
            ChildOrder::Synchronize => ChildOrder::Synchronize,
            ChildOrder::Probe => ChildOrder::Probe,
            ChildOrder::Report => ChildOrder::Report,
            ChildOrder::Finish => ChildOrder::Finish,
            ChildOrder::Execute => ChildOrder::Execute,
            ChildOrder::Refuse(code) => ChildOrder::Refuse(code),
            ChildOrder::ReportFailure(code) => ChildOrder::ReportFailure(code),
            ChildOrder::Die(message) => ChildOrder::Die(message@),
        }
    }
}

/// A step that went wrong: its error number, where it has one, and its words.
#[derive(Debug)]
pub struct Failure {
    pub code: Option<i32>,
    pub error: String,
}

/// What the command's process does after a step that went well.
pub open spec fn child_next(stage: ChildStage) -> ChildOrder<Seq<char>> {
    match stage {
        ChildStage::Installing => ChildOrder::Send,
        ChildStage::Sending => ChildOrder::Synchronize,
        ChildStage::Synchronizing => ChildOrder::Probe,
        ChildStage::Probing => ChildOrder::Report,
        ChildStage::Reporting => ChildOrder::Finish,
        _ => ChildOrder::Execute,
    }
}

/// What the command's process does after a step that went wrong with the error
/// number `code`, in words `error`.
pub open spec fn child_failed(
    stage: ChildStage,
    code: i32,
    error: Seq<char>,
    program: Seq<char>,
) -> ChildOrder<Seq<char>> {
    match stage {
        ChildStage::Installing => ChildOrder::Refuse(code),
        ChildStage::Sending => ChildOrder::Die(
            "pathshim: cannot pass filesystem listener: "@ + error,
        ),
        ChildStage::Synchronizing => ChildOrder::Die(
            "pathshim: cannot synchronize filesystem supervisor: "@ + error,
        ),
        ChildStage::Probing => ChildOrder::ReportFailure(code),
        ChildStage::Reporting => ChildOrder::Die(
            "pathshim: cannot report filesystem probe: "@ + error,
        ),
        ChildStage::Finishing => ChildOrder::Die(
            "pathshim: cannot finish filesystem probe: "@ + error,
        ),
        ChildStage::Executing => ChildOrder::Die(
            "pathshim: cannot execute command `"@ + program + "`: "@ + error,
        ),
    }
}

/// A message with the error behind it.
fn child_error(message: &str, error: &str) -> (order: ChildOrder<String>)
    ensures
        order@ == ChildOrder::Die(message@ + error@),
{
    ChildOrder::Die(text::concat2(message, error))
}

/// Goes on in the command's process after a step. An error without a number
/// counts as `fallback`.
pub fn child_main(
    stage: ChildStage,
    outcome: Result<(), Failure>,
    program: &str,
    fallback: i32,
) -> (order: ChildOrder<String>)
    requires
        outcome is Ok ==> stage != ChildStage::Executing,
    ensures
        order@ == match outcome {
            Ok(_) => child_next(stage),
            Err(failure) => child_failed(
                stage,
                match failure.code {
                    Some(code) => code,
                    None => fallback,
                },
                failure.error@,
                program@,
            ),
        },
{
    let failure = match outcome {
        Ok(_) => return match stage {
            ChildStage::Installing => ChildOrder::Send,
            ChildStage::Sending => ChildOrder::Synchronize,
            ChildStage::Synchronizing => ChildOrder::Probe,
            ChildStage::Probing => ChildOrder::Report,
            ChildStage::Reporting => ChildOrder::Finish,
            _ => ChildOrder::Execute,
        },
        Err(failure) => failure,
    };
    let code = match failure.code {
        Some(code) => code,
        None => fallback,
    };
    let error = failure.error.as_str();
    match stage {
        ChildStage::Installing => ChildOrder::Refuse(code),
        ChildStage::Sending => child_error("pathshim: cannot pass filesystem listener: ", error),
        ChildStage::Synchronizing => child_error(
            "pathshim: cannot synchronize filesystem supervisor: ",
            error,
        ),
        ChildStage::Probing => ChildOrder::ReportFailure(code),
        ChildStage::Reporting => child_error("pathshim: cannot report filesystem probe: ", error),
        ChildStage::Finishing => child_error("pathshim: cannot finish filesystem probe: ", error),
        ChildStage::Executing => {
            let mut message = text::concat3("pathshim: cannot execute command `", program, "`: ");
            message.append(error);
            ChildOrder::Die(message)
        },
    }
}

/// The command is executed only after the supervisor has answered the report of
/// a successful probe.
pub proof fn law_child_executes_last(stage: ChildStage)
    requires
        stage != ChildStage::Executing,
    ensures
        child_next(stage) is Execute <==> stage == ChildStage::Finishing,
        forall|code: i32, error: Seq<char>, program: Seq<char>|
            !(#[trigger] child_failed(stage, code, error, program) is Execute),
{
}

/// The steps of an attempt come in their order, each after the one before it went
/// well.
pub proof fn law_steps_come_in_order(projections: nat, quiet: bool)
    ensures
        ordered(Stage::Reopening, Event::Done, projections, quiet) is Connect,
        ordered(Stage::Connecting, Event::Done, projections, quiet) is Fork,
        ordered(Stage::Forking, Event::Done, projections, quiet) is Receive,
        ordered(Stage::Receiving, Event::Done, projections, quiet) is Supervise,
        ordered(Stage::Supervising, Event::Done, projections, quiet) is Forward,
        ordered(Stage::Forwarding, Event::Done, projections, quiet) is Start,
        ordered(Stage::Starting, Event::Done, projections, quiet) is Probe,
        forall|error: Seq<char>|
            #[trigger] ordered(
                Stage::Probing,
                Event::Probed { code: 0, error },
                projections,
                quiet,
            ) is Finish,
        ordered(Stage::Finishing, Event::Done, projections, quiet) is Wait,
{
}

/// An attempt that is given up says what went wrong and with which error, in the
/// words of the system: the error is never lost and never made up.
pub proof fn law_reasons_end_in_the_error(
    stage: Stage,
    event: Event<Seq<char>>,
    projections: nat,
    quiet: bool,
)
    requires
        possible(stage, event),
    ensures
        ordered(stage, event, projections, quiet) matches Order::GiveUp { reason: said, cleanup } ==> {
            let error = match event {
                Event::Failed(error) => error,
                Event::Unavailable(error) => error,
                Event::Probed { code, error } => error,
                _ => ""@,
            };
            let tail = " error="@ + error;
            &&& event is Failed || event is Unavailable || (event matches Event::Probed {
                code,
                error,
            } && code != 0)
            &&& said.len() >= tail.len()
            &&& said.skip(said.len() - tail.len()) == tail
        },
        ordered(stage, event, projections, quiet) matches Order::Abort { error: told } ==> event
            == Event::Failed(told) && stage == Stage::Waiting,
{
    if let Order::GiveUp { reason: said, cleanup } = ordered(stage, event, projections, quiet) {
        let error = match event {
            Event::Failed(error) => error,
            Event::Unavailable(error) => error,
            Event::Probed { code, error } => error,
            _ => ""@,
        };
        let tail = " error="@ + error;
        let head = match event {
            Event::Failed(error) => cause(stage),
            Event::Unavailable(error) => "bind-view-unavailable"@,
            _ => "bind-view-probe-failed"@,
        };
        assert(said =~= head + tail);
        assert(said.skip(said.len() - tail.len()) =~= tail);
    }
}

/// A probe that found something wrong gives the attempt up, whatever its number, and
/// only one that found nothing wrong lets the command go.
pub proof fn law_failed_probe_gives_up(code: i32, error: Seq<char>, projections: nat, quiet: bool)
    ensures
        code != 0 <==> ordered(
            Stage::Probing,
            Event::Probed { code, error },
            projections,
            quiet,
        ) is GiveUp,
        code == 0 <==> ordered(
            Stage::Probing,
            Event::Probed { code, error },
            projections,
            quiet,
        ) is Finish,
{
}

/// The end of the command is passed on as it was, with signals released and the
/// supervisor stopped; nothing is killed and nothing more is awaited.
pub proof fn law_end_of_the_command_is_passed_on(status: ChildStatus, projections: nat, quiet: bool)
    ensures
        ordered(Stage::Waiting, Event::Ended(status), projections, quiet) matches Order::Exit {
            status: told,
            cleanup,
        } && told == status && cleanup.release_signals && cleanup.stop_supervisor && !cleanup.kill
            && !cleanup.wait,
{
}

/// The announcement names the mode and counts the mappings.
pub proof fn law_announcement_counts_mappings(error: Seq<char>, projections: nat)
    ensures
        ordered(Stage::Probing, Event::Probed { code: 0, error }, projections, false) == (
        Order::Finish {
            announcement: Some(
                "pathshim: collect mode=bind-view projections="@ + decimal(projections as int)
                    + " features=replace,shared-source"@,
            ),
        }),
        projections <= u32::MAX ==> number::parsed(decimal(projections as int)) == Some(
            projections as u32,
        ),
{
    if projections <= u32::MAX {
        number::law_decimal_is_parsed_back(projections);
    }
}

/// The command's process reports the error number of a step that the supervisor
/// waits for, and dies with the error in its message at any other step; after a step
/// that went well it goes on with the next one.
pub proof fn law_child_reports_its_errors(
    stage: ChildStage,
    code: i32,
    error: Seq<char>,
    program: Seq<char>,
)
    ensures
        stage == ChildStage::Installing ==> child_failed(stage, code, error, program)
            == ChildOrder::<Seq<char>>::Refuse(code),
        stage == ChildStage::Probing ==> child_failed(stage, code, error, program) == ChildOrder::<
            Seq<char>,
        >::ReportFailure(code),
        stage != ChildStage::Installing && stage != ChildStage::Probing ==> (child_failed(
            stage,
            code,
            error,
            program,
        ) matches ChildOrder::Die(message) && message.len() >= error.len() && message.skip(
            message.len() - error.len(),
        ) == error),
        child_next(ChildStage::Installing) is Send,
        child_next(ChildStage::Sending) is Synchronize,
        child_next(ChildStage::Synchronizing) is Probe,
        child_next(ChildStage::Probing) is Report,
        child_next(ChildStage::Reporting) is Finish,
        child_next(ChildStage::Finishing) is Execute,
{
    if let ChildOrder::Die(message) = child_failed(stage, code, error, program) {
        assert(message.skip(message.len() - error.len()) =~= error);
    }
}

/// What an attempt that is given up undoes is what the steps before it have done: the
/// command's process is there from when it was made, the supervisor from when it was
/// started, and signals are passed on from when that was set up. The process is killed
/// unless it has ended by itself.
pub proof fn law_cleanup_undoes_what_was_done(
    stage: Stage,
    event: Event<Seq<char>>,
    projections: nat,
    quiet: bool,
)
    requires
        possible(stage, event),
    ensures
        ordered(stage, event, projections, quiet) matches Order::GiveUp { reason: said, cleanup } ==> {
            let forwarding = stage == Stage::Starting || stage == Stage::Probing || stage
                == Stage::Finishing;
            let supervised = forwarding || stage == Stage::Forwarding;
            let forked = supervised || stage == Stage::Supervising || stage == Stage::Receiving;
            &&& cleanup.release_signals <==> forwarding
            &&& cleanup.stop_supervisor <==> supervised
            &&& cleanup.wait <==> forked
            &&& cleanup.kill <==> forked && !(event is Unavailable)
        },
{
}

/// Every step can go wrong until the attempt is over, and each can go well in its own
/// way: the probe with a result, the wait with an end, and the others by being done.
pub proof fn law_steps_turn_out_in_their_own_way(stage: Stage, error: Seq<char>, status: ChildStatus)
    ensures
        possible(stage, Event::Failed(error)) <==> stage != Stage::Over,
        possible(stage, Event::Unavailable(error)) <==> stage == Stage::Receiving,
        forall|code: i32|
            possible(stage, Event::Probed { code, error }) <==> stage == Stage::Probing,
        possible(stage, Event::<Seq<char>>::Ended(status)) <==> stage == Stage::Waiting,
        possible(stage, Event::<Seq<char>>::Done) <==> stage != Stage::Probing && stage
            != Stage::Waiting && stage != Stage::Over,
{
}

} // verus!
