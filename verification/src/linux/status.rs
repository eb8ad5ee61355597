//! How a command ended, and how that is passed on.

use crate::number;
use crate::number::decimal;
use vstd::prelude::*;

verus! {

/// How a command ended.
#[derive(Clone, Copy, PartialEq, Eq, Structural, Debug)]
pub enum ChildStatus {
    Exited(i32),
    Signaled(i32),
}

/// Wraps `libc::WIFEXITED`: the low seven bits of a status are zero where the
/// process exited.
#[verifier::external_body]
fn has_exited(status: i32) -> (found: bool)
    ensures
        found == (status & 0x7f == 0),
{
    libc::WIFEXITED(status)
}

/// Wraps `libc::WEXITSTATUS`: the exit code stands in the second byte.
#[verifier::external_body]
fn exit_code(status: i32) -> (code: i32)
    ensures
        code == (status >> 8) & 0xff,
{
    libc::WEXITSTATUS(status)
}

/// Wraps `libc::WIFSIGNALED`: the low seven bits of a status are neither zero
/// nor all set where a signal ended the process.
#[verifier::external_body]
fn was_signaled(status: i32) -> (found: bool)
    ensures
        found == (status & 0x7f != 0 && status & 0x7f != 0x7f),
{
    libc::WIFSIGNALED(status)
}

/// Wraps `libc::WTERMSIG`: the signal stands in the low seven bits.
#[verifier::external_body]
fn ending_signal(status: i32) -> (signal: i32)
    ensures
        signal == status & 0x7f,
{
    libc::WTERMSIG(status)
}

/// How a command ended according to a wait status; nothing, if it has only
/// stopped.
pub open spec fn ending(status: i32) -> Option<ChildStatus> {
    let low = status & 0x7f;
    if low == 0 {
        Some(ChildStatus::Exited((status >> 8) & 0xff))
    } else if low != 0x7f {
        Some(ChildStatus::Signaled(low))
    } else {
        None
    }
}

/// Reads a wait status.
pub fn child_status(status: i32) -> (end: Option<ChildStatus>)
    ensures
        end == ending(status),
{
    if has_exited(status) {
        return Some(ChildStatus::Exited(exit_code(status)));
    }
    if was_signaled(status) {
        return Some(ChildStatus::Signaled(ending_signal(status)));
    }
    None
}

/// How waiting for a command goes on.
#[derive(Clone, Copy, PartialEq, Eq, Structural, Debug)]
pub enum Wait {
    Again,
    Ended(ChildStatus),
    Failed,
}

/// How waiting for a command goes on.
pub open spec fn waited(status: Result<i32, bool>) -> Wait {
    match status {
        Ok(status) => match ending(status) {
            Some(end) => Wait::Ended(end),
            None => Wait::Again,
        },
        Err(interrupted) => if interrupted {
            Wait::Again
        } else {
            Wait::Failed
        },
    }
}

/// Goes on after a wait that brought a status, or an error that may be an
/// interruption.
pub fn wait_for_child(status: Result<i32, bool>) -> (wait: Wait)
    ensures
        wait == waited(status),
{
    match status {
        Ok(status) => match child_status(status) {
            Some(end) => Wait::Ended(end),
            None => Wait::Again,
        },
        Err(interrupted) => if interrupted {
            Wait::Again
        } else {
            Wait::Failed
        },
    }
}

/// How the caller is told: by an exit code, or by the same signal, with an exit
/// code in case that does not end the process.
#[derive(Clone, Copy, PartialEq, Eq, Structural, Debug)]
pub enum Farewell {
    Exit(i32),
    Raise { signal: i32, otherwise: i32 },
}

/// How the caller is told of an end.
pub open spec fn farewell_of(status: ChildStatus) -> Farewell {
    match status {
        ChildStatus::Exited(code) => Farewell::Exit(code),
        ChildStatus::Signaled(signal) => Farewell::Raise {
            signal,
            otherwise: (128 + signal) as i32,
        },
    }
}

/// Tells the caller how the command ended, so that an exit with a code and an
/// end by a signal stay apart.
pub fn exit_with_status(status: ChildStatus) -> (farewell: Farewell)
    requires
        status matches ChildStatus::Signaled(signal) ==> signal <= i32::MAX - 128,
    ensures
        farewell == farewell_of(status),
        match status {
            ChildStatus::Exited(code) => farewell == Farewell::Exit(code),
            ChildStatus::Signaled(signal) => farewell matches Farewell::Raise {
                signal: raised,
                otherwise,
            } && raised == signal && otherwise == 128 + signal,
        },
{
    match status {
        ChildStatus::Exited(code) => Farewell::Exit(code),
        ChildStatus::Signaled(signal) => Farewell::Raise { signal, otherwise: 128 + signal },
    }
}

/// A way to end, in words.
pub open spec fn status_text(status: ChildStatus) -> Seq<char> {
    match status {
        ChildStatus::Exited(code) => "exit-"@ + decimal(code as int),
        ChildStatus::Signaled(signal) => "signal-"@ + decimal(signal as int),
    }
}

/// A way to end, in words.
pub fn display_status(status: ChildStatus) -> (shown: String)
    ensures
        shown@ == status_text(status),
{
    let mut shown = String::new();
    match status {
        ChildStatus::Exited(code) => {
            shown.append("exit-");
            shown.append(number::render_decimal(code).as_str());
        },
        ChildStatus::Signaled(signal) => {
            shown.append("signal-");
            shown.append(number::render_decimal(signal).as_str());
        },
    }
    assert(shown@ =~= status_text(status));
    shown
}

/// Every wait status that ends a command is passed on as it is: a code between 0
/// and 255 as that code, a signal between 1 and 126 as that signal, and no status
/// as both.
pub proof fn law_endings_are_passed_on(status: i32)
    ensures
        match ending(status) {
            Some(ChildStatus::Exited(code)) => 0 <= code <= 255,
            Some(ChildStatus::Signaled(signal)) => 1 <= signal <= 126,
            None => true,
        },
{
    assert(0 <= (status & 0x7f) <= 0x7f) by (bit_vector);
    assert(0 <= ((status >> 8) & 0xff) <= 0xff) by (bit_vector);
}

/// The status of a normal exit with `code` is read back as that code.
pub proof fn law_exit_code_is_read_back(code: i32)
    requires
        0 <= code <= 255,
    ensures
        ending((code << 8) as i32) == Some(ChildStatus::Exited(code)),
{
    assert(((code << 8) as i32) & 0x7f == 0 && (((code << 8) as i32) >> 8) & 0xff == code)
        by (bit_vector)
        requires
            0 <= code <= 255,
    ;
}

/// The signals that are passed on to the command.
#[derive(Clone, Copy, PartialEq, Eq, Structural, Debug)]
pub struct ForwardedSignals {
    pub terminate: i32,
    pub interrupt: i32,
    pub hang_up: i32,
    pub quit: i32,
}

/// Reads the numbers of signals from `libc` (`libc::SIGTERM`, `libc::SIGINT`,
/// `libc::SIGHUP`, `libc::SIGQUIT`), which are the same on every Linux machine.
#[verifier::external_body]
fn signal_numbers() -> (signals: ForwardedSignals)
    ensures
        signals == (ForwardedSignals { terminate: 15, interrupt: 2, hang_up: 1, quit: 3 }),
{
    ForwardedSignals {
        terminate: libc::SIGTERM,
        interrupt: libc::SIGINT,
        hang_up: libc::SIGHUP,
        quit: libc::SIGQUIT,
    }
}

/// The signals that are passed on, in the order in which handlers are installed.
pub open spec fn forwarded() -> Seq<i32> {
    seq![15i32, 2, 1, 3]
}

/// The installation of handlers, one signal after another.
#[derive(Debug)]
pub struct SignalForwarding {
    signals: Vec<i32>,
    installed: usize,
}

/// What is to be done next for the handlers.
#[derive(Clone, Copy, PartialEq, Eq, Structural, Debug)]
pub enum Handler {
    Install(i32),
    Restore(i32),
    Finished,
}

impl View for SignalForwarding {
    type V = Seq<i32>;

    closed spec fn view(&self) -> Seq<i32> {
        self.signals@.take(self.installed as int)
    }
}

impl SignalForwarding {
    #[verifier::type_invariant]
    spec fn well_formed(self) -> bool {
        self.signals@ == forwarded() && self.installed <= 4
    }

    /// No handler is installed yet.
    pub fn install() -> (forwarding: SignalForwarding)
        ensures
            forwarding@ == Seq::<i32>::empty(),
    {
        let numbers = signal_numbers();
        let mut signals: Vec<i32> = Vec::new();
        signals.push(numbers.terminate);
        signals.push(numbers.interrupt);
        signals.push(numbers.hang_up);
        signals.push(numbers.quit);
        assert(signals@ =~= forwarded());
        let forwarding = SignalForwarding { signals, installed: 0 };
        assert(forwarding@ =~= Seq::<i32>::empty());
        forwarding
    }

    /// The handler to install next.
    pub fn pending(&self) -> (next: Handler)
        ensures
            self@.len() <= 4,
            self@ == forwarded().take(self@.len() as int),
            next == if self@.len() < 4 {
                Handler::Install(forwarded()[self@.len() as int])
            } else {
                Handler::Finished
            },
    {
        proof {
            use_type_invariant(self);
        }
        if self.installed < self.signals.len() {
            Handler::Install(self.signals[self.installed])
        } else {
            Handler::Finished
        }
    }

    /// The pending handler was installed.
    pub fn advance(&mut self)
        requires
            old(self)@.len() < 4,
        ensures
            final(self)@ == forwarded().take(old(self)@.len() as int + 1),
            final(self)@.len() == old(self)@.len() + 1,
    {
        proof {
            use_type_invariant(&*self);
        }
        let next = self.installed + 1;
        self.installed = next;
    }

    /// Takes the handler that was installed last back out: after a failed
    /// installation and at the end the earlier handlers are put back in reverse
    /// order, until nothing is left.
    pub fn take_back(&mut self) -> (next: Handler)
        ensures
            match next {
                Handler::Restore(signal) => old(self)@.len() > 0 && signal == old(self)@.last()
                    && final(self)@ == old(self)@.drop_last(),
                Handler::Finished => old(self)@.len() == 0 && final(self)@ == old(self)@,
                Handler::Install(_) => false,
            },
    {
        proof {
            use_type_invariant(&*self);
        }
        if self.installed == 0 {
            return Handler::Finished;
        }
        let last = self.installed - 1;
        let ghost before = self@;
        self.installed = last;
        assert(self@ =~= before.drop_last());
        Handler::Restore(self.signals[last])
    }
}

/// Whether a signal is passed on: only once there is a command.
pub fn forward_signal(child: i32) -> (pass_on: bool)
    ensures
        pass_on == (child > 0),
{
    child > 0
}

/// The status of an end by a signal is read back as that signal, whether or not
/// memory was dumped; a process that has only stopped has not ended.
pub proof fn law_signal_is_read_back(signal: i32, code: i32)
    requires
        1 <= signal <= 126,
        0 <= code <= 255,
    ensures
        ending(signal) == Some(ChildStatus::Signaled(signal)),
        ending(signal | 0x80) == Some(ChildStatus::Signaled(signal)),
        ending((code << 8) | 0x7f) is None,
{
    assert(signal & 0x7f == signal && (signal | 0x80) & 0x7f == signal) by (bit_vector)
        requires
            1 <= signal <= 126,
    ;
    assert(((code << 8) | 0x7f) & 0x7f == 0x7f) by (bit_vector);
}

/// Waiting goes on until the command has ended and no longer: an interruption and a
/// stop are waited out, and any other error ends the wait.
pub proof fn law_wait_lasts_until_the_end(status: Result<i32, bool>)
    ensures
        forall|end: ChildStatus|
            waited(status) == Wait::Ended(end) <==> (status matches Ok(status) && ending(status)
                == Some(end)),
        waited(status) is Failed <==> status == Err::<i32, bool>(false),
        waited(status) is Again <==> status == Err::<i32, bool>(true) || (status matches Ok(status)
            && ending(status) is None),
{
}

/// The caller is told the end of the command as it was: an exit by the same code, a
/// signal by the same signal, with 128 above it as the code that stands in, so that
/// two different ends are never told alike.
pub proof fn law_ends_are_told_as_they_were(one: ChildStatus, other: ChildStatus)
    requires
        one matches ChildStatus::Signaled(signal) ==> signal <= i32::MAX - 128,
        other matches ChildStatus::Signaled(signal) ==> signal <= i32::MAX - 128,
    ensures
        one matches ChildStatus::Exited(code) ==> farewell_of(one) == Farewell::Exit(code),
        one matches ChildStatus::Signaled(signal) ==> (farewell_of(one) matches Farewell::Raise {
            signal: raised,
            otherwise,
        } && raised == signal && otherwise == signal + 128),
        farewell_of(one) == farewell_of(other) ==> one == other,
{
}

/// A way to end is told apart in words from every other one of its kind by its
/// number.
pub proof fn law_ends_are_named_by_their_number(number: i32)
    requires
        number >= 0,
    ensures
        status_text(ChildStatus::Exited(number)) == "exit-"@ + decimal(number as int),
        status_text(ChildStatus::Signaled(number)) == "signal-"@ + decimal(number as int),
        number::parsed(decimal(number as int)) == Some(number as u32),
{
    number::law_decimal_is_parsed_back(number as nat);
}

/// The signals that end a command from outside are passed on, each once: hang-up,
/// interrupt, quit and termination.
pub proof fn law_ending_signals_are_passed_on(signal: i32)
    ensures
        forwarded().contains(signal) <==> signal == 1 || signal == 2 || signal == 3 || signal == 15,
        forwarded().no_duplicates(),
{
    let list = forwarded();
    assert(list[0] == 15 && list[1] == 2 && list[2] == 1 && list[3] == 3);
}

} // verus!
