//! The messages between the command's process and its supervisor before the
//! command starts, and how each side waits for the other.

use crate::bytes;
use crate::number;
use crate::number::{capacity, memory_bytes, memory_number, unsigned, ByteOrder};
use vstd::prelude::*;

verus! {

/// The first byte of a message that a listener comes with.
pub const SETUP_READY: u8 = 1;

/// The first byte of a message that no listener could be installed.
pub const SETUP_UNAVAILABLE: u8 = 0;

/// How long the supervisor waits for the result of the probe.
pub const PROBE_TIMEOUT_MS: i32 = 5_000;

/// The length of the longest setup message.
pub const SETUP_SIZE: usize = 5;

/// What identifies a control message that carries descriptors.
#[derive(Clone, Copy, PartialEq, Eq, Structural, Debug)]
pub struct Rights {
    pub level: i32,
    pub kind: i32,
}

/// Reads from `libc` what identifies a control message that carries
/// descriptors: the level `libc::SOL_SOCKET`, which is one of two numbers,
/// depending on the machine, and the kind `libc::SCM_RIGHTS`, which is 1 on every
/// machine.
#[verifier::external_body]
fn rights() -> (rights: Rights)
    ensures
        rights.level == 1 || rights.level == 0xffff,
        rights.kind == 1,
{
    Rights { level: libc::SOL_SOCKET, kind: libc::SCM_RIGHTS }
}

/// What identifies a control message that carries descriptors on this machine;
/// which of two levels it has depends on the machine.
pub fn descriptor_rights() -> (identity: Rights)
    ensures
        identity.level == 1 || identity.level == 0xffff,
        identity.kind == 1,
{
    rights()
}

/// A control message with its descriptor.
#[derive(Clone, Copy, PartialEq, Eq, Structural, Debug)]
pub struct Control {
    pub level: i32,
    pub kind: i32,
    pub fd: i32,
}

/// What the command's process reports: a listener, or why there is none.
#[derive(Clone, Copy, PartialEq, Eq, Structural, Debug)]
pub enum Setup {
    Ready(i32),
    Unavailable(i32),
}

/// Why a report could not be read.
#[derive(Clone, Copy, PartialEq, Eq, Structural, Debug)]
pub enum SetupError {
    Os(i32),
    Malformed,
    MissingListener,
}

/// The message that no listener could be installed.
pub open spec fn refusal(order: ByteOrder, error: i32) -> Seq<u8> {
    seq![SETUP_UNAVAILABLE] + memory_bytes(order, unsigned(error as int), 4)
}

/// Builds the message that no listener could be installed.
pub fn send_setup_error(error: i32, order: ByteOrder) -> (payload: Vec<u8>)
    ensures
        payload@ == refusal(order, error),
        payload@.len() == SETUP_SIZE,
{
    let mut payload: Vec<u8> = Vec::new();
    payload.push(SETUP_UNAVAILABLE);
    let code = number::to_memory(order, number::to_unsigned(error) as u64, 4);
    bytes::append(&mut payload, code.as_slice());
    assert(payload@ =~= refusal(order, error));
    payload
}

/// The signed number that four bytes in memory stand for.
pub open spec fn signed_memory(order: ByteOrder, memory: Seq<u8>) -> int {
    let bits = memory_number(order, memory);
    if bits < 0x8000_0000 {
        bits as int
    } else {
        bits - 0x1_0000_0000
    }
}

/// Reads a signed number from four bytes in memory.
fn read_signed(order: ByteOrder, memory: &[u8]) -> (number: i32)
    requires
        memory.len() == 4,
    ensures
        number == signed_memory(order, memory@),
{
    reveal_with_fuel(capacity, 5);
    let bits = number::from_memory(order, memory);
    number::to_signed(bits as u32)
}

/// A signed number is read back from its bytes in memory.
pub proof fn law_signed_memory_is_read_back(order: ByteOrder, number: i32)
    ensures
        memory_bytes(order, unsigned(number as int), 4).len() == 4,
        signed_memory(order, memory_bytes(order, unsigned(number as int), 4)) == number,
{
    reveal_with_fuel(capacity, 5);
    number::law_memory_is_read_back(order, unsigned(number as int), 4);
}

/// What a received report says: `received` tells how many bytes came, and
/// `control` the control message that came with them.
pub open spec fn reported(
    order: ByteOrder,
    received: Result<usize, i32>,
    payload: Seq<u8>,
    control: Option<Control>,
    rights: Rights,
) -> Result<Setup, SetupError> {
    match received {
        Err(error) => Err(SetupError::Os(error)),
        Ok(count) => if count == 5 && payload[0] == SETUP_UNAVAILABLE {
            Ok(Setup::Unavailable(signed_memory(order, payload.subrange(1, 5)) as i32))
        } else if count != 1 || payload[0] != SETUP_READY {
            Err(SetupError::Malformed)
        } else {
            match control {
                Some(control) => if control.level == rights.level && control.kind == rights.kind {
                    Ok(Setup::Ready(control.fd))
                } else {
                    Err(SetupError::MissingListener)
                },
                None => Err(SetupError::MissingListener),
            }
        },
    }
}

/// Reads the report of the command's process.
pub fn receive_setup(
    received: Result<usize, i32>,
    payload: &[u8],
    control: Option<Control>,
    rights: &Rights,
    order: ByteOrder,
) -> (answer: Result<Setup, SetupError>)
    requires
        payload.len() == SETUP_SIZE,
    ensures
        answer == reported(order, received, payload@, control, *rights),
{
    let count = match received {
        Ok(count) => count,
        Err(error) => return Err(SetupError::Os(error)),
    };
    if count == 5 && payload[0] == SETUP_UNAVAILABLE {
        let code = bytes::range(payload, 1, 5);
        return Ok(Setup::Unavailable(read_signed(order, code.as_slice())));
    }
    if count != 1 || payload[0] != SETUP_READY {
        return Err(SetupError::Malformed);
    }
    match control {
        Some(control) => if control.level == rights.level && control.kind == rights.kind {
            Ok(Setup::Ready(control.fd))
        } else {
            Err(SetupError::MissingListener)
        },
        None => Err(SetupError::MissingListener),
    }
}

/// A refusal arrives as it was sent: whatever the error number, the supervisor
/// reads it back.
pub proof fn law_refusal_arrives(
    order: ByteOrder,
    error: i32,
    control: Option<Control>,
    rights: Rights,
)
    ensures
        refusal(order, error).len() == SETUP_SIZE,
        reported(order, Ok(5), refusal(order, error), control, rights) == Ok::<Setup, SetupError>(
            Setup::Unavailable(error),
        ),
{
    let payload = refusal(order, error);
    law_signed_memory_is_read_back(order, error);
    assert(payload.subrange(1, 5) =~= memory_bytes(order, unsigned(error as int), 4));
}

/// A listener arrives as it was sent: one byte with the descriptor beside it.
pub proof fn law_listener_arrives(order: ByteOrder, payload: Seq<u8>, fd: i32, rights: Rights)
    requires
        payload.len() == SETUP_SIZE,
        payload[0] == SETUP_READY,
    ensures
        reported(
            order,
            Ok(1),
            payload,
            Some(Control { level: rights.level, kind: rights.kind, fd }),
            rights,
        ) == Ok::<Setup, SetupError>(Setup::Ready(fd)),
{
}

impl SetupError {
    /// The error in words; the operating system has its own for an error number.
    pub fn message(&self) -> (text: Option<&'static str>)
        ensures
            match self {
                SetupError::Os(_) => text is None,
                SetupError::Malformed => text is Some && text->0@
                    == "invalid filesystem listener setup response"@,
                SetupError::MissingListener => text is Some && text->0@ == "listener fd missing"@,
            },
    {
        match self {
            SetupError::Os(_) => None,
            SetupError::Malformed => Some("invalid filesystem listener setup response"),
            SetupError::MissingListener => Some("listener fd missing"),
        }
    }
}

/// The events that a descriptor is waited on for.
#[derive(Clone, Copy, PartialEq, Eq, Structural, Debug)]
pub struct PollEvents {
    pub readable: i16,
    pub error: i16,
    pub hang_up: i16,
    pub invalid: i16,
}

/// Reads event bits from `libc` (`libc::POLLIN`, `libc::POLLERR`,
/// `libc::POLLHUP`, `libc::POLLNVAL`), which are the same on every Linux machine.
#[verifier::external_body]
fn event_bits() -> (events: PollEvents)
    ensures
        events == (PollEvents { readable: 1, error: 8, hang_up: 0x10, invalid: 0x20 }),
{
    PollEvents {
        readable: libc::POLLIN,
        error: libc::POLLERR,
        hang_up: libc::POLLHUP,
        invalid: libc::POLLNVAL,
    }
}

/// What a wait for a descriptor brought: how many descriptors are ready and
/// with which events, or an error that may be an interruption.
#[derive(Clone, Copy, PartialEq, Eq, Structural, Debug)]
pub enum Polled {
    Interrupted,
    Failed(i32),
    Ready { count: i32, events: i16 },
}

/// The events say that there is something to read.
pub open spec fn readable(events: i16) -> bool {
    events & 1 != 0
}

/// The events say that the other side is gone or the descriptor is no good.
pub open spec fn broken(events: i16) -> bool {
    events & 0x38 != 0
}

/// How waiting for the result of the probe goes on.
#[derive(Clone, Copy, PartialEq, Eq, Structural, Debug)]
pub enum ProbeTurn {
    Again,
    Receive,
    Fail(ProbeError),
}

/// Why no result of the probe could be had.
#[derive(Clone, Copy, PartialEq, Eq, Structural, Debug)]
pub enum ProbeError {
    Os(i32),
    TimedOut,
    Missing,
    Stopped,
}

impl ProbeError {
    /// The error in words; the operating system has its own for an error number.
    pub fn message(&self) -> (text: Option<&'static str>)
        ensures
            match self {
                ProbeError::Os(_) => text is None,
                ProbeError::TimedOut => text is Some && text->0@
                    == "filesystem capability probe timed out"@,
                ProbeError::Missing => text is Some && text->0@
                    == "filesystem capability probe result missing"@,
                ProbeError::Stopped => text is Some && text->0@
                    == "filesystem capability probe process stopped"@,
            },
    {
        match self {
            ProbeError::Os(_) => None,
            ProbeError::TimedOut => Some("filesystem capability probe timed out"),
            ProbeError::Missing => Some("filesystem capability probe result missing"),
            ProbeError::Stopped => Some("filesystem capability probe process stopped"),
        }
    }
}

/// How waiting for the result of the probe goes on.
pub open spec fn probe_turn(polled: Polled) -> ProbeTurn {
    match polled {
        Polled::Interrupted => ProbeTurn::Again,
        Polled::Failed(error) => ProbeTurn::Fail(ProbeError::Os(error)),
        Polled::Ready { count, events } => if count == 0 {
            ProbeTurn::Fail(ProbeError::TimedOut)
        } else if readable(events) {
            ProbeTurn::Receive
        } else {
            ProbeTurn::Fail(ProbeError::Stopped)
        },
    }
}

/// Goes on after a wait for the result of the probe.
pub fn read_i32_timeout(polled: Polled) -> (turn: ProbeTurn)
    ensures
        turn == probe_turn(polled),
{
    let bits = event_bits();
    match polled {
        Polled::Interrupted => ProbeTurn::Again,
        Polled::Failed(error) => ProbeTurn::Fail(ProbeError::Os(error)),
        Polled::Ready { count, events } => if count == 0 {
            ProbeTurn::Fail(ProbeError::TimedOut)
        } else if events & bits.readable != 0 {
            ProbeTurn::Receive
        } else {
            ProbeTurn::Fail(ProbeError::Stopped)
        },
    }
}

/// The bytes that report the result of the probe.
pub open spec fn result_bytes(order: ByteOrder, value: i32) -> Seq<u8> {
    memory_bytes(order, unsigned(value as int), 4)
}

/// The bytes that report the result of the probe.
pub fn write_i32(value: i32, order: ByteOrder) -> (bytes: Vec<u8>)
    ensures
        bytes@ == result_bytes(order, value),
        bytes@.len() == 4,
{
    number::to_memory(order, number::to_unsigned(value) as u64, 4)
}

/// The result of the probe, if all of its four bytes came.
pub open spec fn result_of(received: Result<usize, i32>, bytes: Seq<u8>, order: ByteOrder) -> Result<
    i32,
    ProbeError,
> {
    if received == Ok::<usize, i32>(4) {
        Ok(signed_memory(order, bytes) as i32)
    } else {
        Err(ProbeError::Missing)
    }
}

/// The result of the probe, if all of its four bytes came.
pub fn probe_result(received: Result<usize, i32>, bytes: &[u8], order: ByteOrder) -> (answer: Result<
    i32,
    ProbeError,
>)
    requires
        bytes.len() == 4,
    ensures
        answer == result_of(received, bytes@, order),
        match answer {
            Ok(value) => received == Ok::<usize, i32>(4) && value == signed_memory(order, bytes@),
            Err(error) => received != Ok::<usize, i32>(4) && error == ProbeError::Missing,
        },
{
    match received {
        Ok(count) => if count == 4 {
            Ok(read_signed(order, bytes))
        } else {
            Err(ProbeError::Missing)
        },
        Err(_) => Err(ProbeError::Missing),
    }
}

/// A transfer on the socket took all of `length` bytes.
pub open spec fn whole_transfer(count: Result<usize, i32>, length: usize) -> bool {
    count == Ok::<usize, i32>(length)
}

/// Whether a transfer on the socket took all of `length` bytes.
pub fn transferred(count: Result<usize, i32>, length: usize) -> (whole: bool)
    ensures
        whole == whole_transfer(count, length),
{
    match count {
        Ok(count) => count == length,
        Err(_) => false,
    }
}

/// How the supervisor goes on.
#[derive(Clone, Copy, PartialEq, Eq, Structural, Debug)]
pub enum Turn {
    Again,
    Stop,
    Fail(i32),
    Receive,
}

/// How the supervisor goes on after a wait for notifications.
pub open spec fn turn_after(polled: Polled) -> Turn {
    match polled {
        Polled::Interrupted => Turn::Again,
        Polled::Failed(error) => Turn::Fail(error),
        Polled::Ready { count, events } => if count == 0 {
            Turn::Again
        } else if broken(events) {
            Turn::Stop
        } else if readable(events) {
            Turn::Receive
        } else {
            Turn::Again
        },
    }
}

/// How the supervisor goes on after a notification was received or handled.
pub open spec fn turn_of(outcome: Result<(), i32>, gone: i32) -> Turn {
    match outcome {
        Ok(_) => Turn::Again,
        Err(error) => if error == gone {
            Turn::Again
        } else {
            Turn::Fail(error)
        },
    }
}

/// Goes on after a wait for notifications: once the listener is gone, the
/// supervisor stops.
pub fn supervise(polled: Polled) -> (turn: Turn)
    ensures
        turn == turn_after(polled),
{
    let bits = event_bits();
    match polled {
        Polled::Interrupted => Turn::Again,
        Polled::Failed(error) => Turn::Fail(error),
        Polled::Ready { count, events } => {
            let gone = bits.hang_up | bits.error | bits.invalid;
            assert(0x10i16 | 8i16 | 0x20i16 == 0x38i16) by (bit_vector);
            if count == 0 {
                Turn::Again
            } else if events & gone != 0 {
                Turn::Stop
            } else if events & bits.readable != 0 {
                Turn::Receive
            } else {
                Turn::Again
            }
        },
    }
}

/// Goes on after a notification was received or handled: one whose process is
/// gone (`gone` is the error for that) is passed over, and any other error ends
/// the supervisor.
pub fn after_notification(outcome: Result<(), i32>, gone: i32) -> (turn: Turn)
    ensures
        turn == turn_of(outcome, gone),
{
    match outcome {
        Ok(_) => Turn::Again,
        Err(error) => if error == gone {
            Turn::Again
        } else {
            Turn::Fail(error)
        },
    }
}

/// The result of the probe is received only once it is there: an interrupted wait is
/// repeated, and a wait that failed, that ran out, or that ended without anything to
/// read ends the probe, each with its own error.
pub proof fn law_probe_result_is_awaited(polled: Polled)
    ensures
        probe_turn(polled) is Again <==> polled is Interrupted,
        probe_turn(polled) is Receive <==> (polled matches Polled::Ready { count, events } && count
            != 0 && events & 1 != 0),
        polled matches Polled::Failed(error) ==> probe_turn(polled) == ProbeTurn::Fail(
            ProbeError::Os(error),
        ),
        polled matches Polled::Ready { count, events } ==> (probe_turn(polled) == ProbeTurn::Fail(
            ProbeError::TimedOut,
        ) <==> count == 0),
        polled matches Polled::Ready { count, events } ==> (probe_turn(polled) == ProbeTurn::Fail(
            ProbeError::Stopped,
        ) <==> count != 0 && events & 1 == 0),
{
}

/// The result of the probe arrives as it was sent, if all of it arrives; anything
/// less counts as missing.
pub proof fn law_probe_result_arrives(order: ByteOrder, value: i32, received: Result<usize, i32>)
    ensures
        ({
            let sent = result_bytes(order, value);
            &&& sent.len() == 4
            &&& result_of(Ok(4), sent, order) == Ok::<i32, ProbeError>(value)
            &&& received != Ok::<usize, i32>(4) ==> result_of(received, sent, order) == Err::<
                i32,
                ProbeError,
            >(ProbeError::Missing)
        }),
{
    law_signed_memory_is_read_back(order, value);
}

/// The supervisor goes on as long as its listener is good: it receives exactly when
/// there is something to read and nothing is wrong with the listener, stops when
/// something is, and fails only where waiting failed.
pub proof fn law_supervisor_goes_on(polled: Polled)
    ensures
        turn_after(polled) is Receive <==> (polled matches Polled::Ready { count, events } && count
            != 0 && events & 1 != 0 && events & 0x38 == 0),
        turn_after(polled) is Stop <==> (polled matches Polled::Ready { count, events } && count != 0
            && events & 0x38 != 0),
        forall|error: i32|
            turn_after(polled) == Turn::Fail(error) <==> polled == Polled::Failed(error),
        polled is Interrupted ==> turn_after(polled) is Again,
{
}

/// A notification whose process is gone does not end the supervisor; any other error
/// does, and keeps its number.
pub proof fn law_gone_processes_are_passed_over(outcome: Result<(), i32>, gone: i32)
    ensures
        turn_of(outcome, gone) is Again <==> outcome is Ok || outcome == Err::<(), i32>(gone),
        forall|error: i32|
            turn_of(outcome, gone) == Turn::Fail(error) <==> outcome == Err::<(), i32>(error)
                && error != gone,
{
}

/// What is no listener and no refusal is not taken for one: a message of another
/// length or with another first byte is malformed, and one without a descriptor of
/// the right kind lacks its listener.
pub proof fn law_other_messages_are_refused(
    order: ByteOrder,
    received: Result<usize, i32>,
    payload: Seq<u8>,
    control: Option<Control>,
    rights: Rights,
)
    requires
        payload.len() == 5,
    ensures
        ({
            let report = reported(order, received, payload, control, rights);
            let carried = control matches Some(control) && control.level == rights.level
                && control.kind == rights.kind;
            &&& received matches Err(error) ==> report == Err::<Setup, SetupError>(
                SetupError::Os(error),
            )
            &&& received matches Ok(count) ==> (report == Err::<Setup, SetupError>(
                SetupError::Malformed,
            ) <==> !(count == 1 && payload[0] == 1) && !(count == 5 && payload[0] == 0))
            &&& report == Err::<Setup, SetupError>(SetupError::MissingListener) <==> received == Ok::<
                usize,
                i32,
            >(1) && payload[0] == 1 && !carried
        }),
{
}

/// A transfer is whole exactly if it took every byte.
pub proof fn law_short_transfers_do_not_count(count: Result<usize, i32>, length: usize)
    ensures
        whole_transfer(count, length) <==> (count matches Ok(taken) && taken == length),
{
}

} // verus!
