//! How the handling of a call goes on after each thing that was done for it.

use crate::linux::dispatch;
use crate::linux::dispatch::{link_answer, Action};
use crate::linux::execute;
use crate::linux::execute::alias_of;
use crate::linux::platform::Platform;
use crate::linux::seccomp::{Injection, ADDFD_FLAG_SEND};
use vstd::prelude::*;

verus! {

/// What came of an action.
#[derive(Debug)]
pub enum Outcome<P> {
    /// It was done; a system call made for it returned this value.
    Done(i32),
    /// It brought bytes: what is known of a file, or the target of a link.
    Bytes(P),
    /// It brought a descriptor: one of the supervisor, or the one that was
    /// injected.
    Descriptor(i32),
    /// It failed.
    Failed(i32),
}

impl View for Outcome<Vec<u8>> {
    type V = Outcome<Seq<u8>>;

    open spec fn view(&self) -> Outcome<Seq<u8>> {
        match *self {
            Outcome::Done(value) => Outcome::Done(value),
            Outcome::Bytes(bytes) => Outcome::Bytes(bytes@),
            Outcome::Descriptor(fd) => Outcome::Descriptor(fd),
            Outcome::Failed(error) => Outcome::Failed(error),
        }
    }
}

/// How much is left to be done, at most.
pub open spec fn left<P>(action: Action<P>) -> nat {
    match action {
        Action::Continue | Action::Fail(_) | Action::Value(_) => 0,
        Action::Answered { fd } => 0,
        Action::Execute { path, raw, address } => 3,
        Action::InjectProgram { injection, raw, address } => 2,
        Action::Open { path, flags, mode, descriptor_flags } => 2,
        Action::Stat { path, flags, output } => 2,
        Action::Statx { path, flags, mask, output } => 2,
        Action::ReadLink { path, buffer, size } => 2,
        _ => 1,
    }
}

/// An action brings a descriptor.
pub open spec fn brings_descriptor<P>(action: Action<P>) -> bool {
    action is Open || action is Inject || action is Execute || action is InjectProgram
}

/// An action brings bytes.
pub open spec fn brings_bytes<P>(action: Action<P>) -> bool {
    action is Stat || action is Statx || action is ReadLink
}

/// What can come of an action.
pub open spec fn possible<P>(action: Action<P>, outcome: Outcome<P>) -> bool {
    left(action) > 0 && match outcome {
        Outcome::Done(_) => !brings_descriptor(action) && !brings_bytes(action),
        Outcome::Bytes(_) => brings_bytes(action),
        Outcome::Descriptor(_) => brings_descriptor(action),
        Outcome::Failed(_) => true,
    }
}

/// The injection of a file that was opened for a call, which answers the call.
pub open spec fn file_injection(id: u64, fd: i32, descriptor_flags: u32) -> Injection {
    Injection {
        id,
        flags: ADDFD_FLAG_SEND,
        srcfd: fd as u32,
        newfd: 0,
        newfd_flags: descriptor_flags,
    }
}

/// The injection of a program, which does not answer the call and whose
/// descriptor closes when the program starts.
pub open spec fn program_injection(id: u64, fd: i32, close_on_exec: i32) -> Injection {
    Injection { id, flags: 0, srcfd: fd as u32, newfd: 0, newfd_flags: close_on_exec as u32 }
}

/// How the handling of the notification `id` goes on after `action` came out as
/// `outcome`.
pub open spec fn continued(
    id: u64,
    action: Action<Seq<u8>>,
    outcome: Outcome<Seq<u8>>,
    platform: Platform,
) -> Action<Seq<u8>> {
    match outcome {
        Outcome::Failed(error) => Action::Fail(error),
        Outcome::Bytes(bytes) => match action {
            Action::Stat { path, flags, output } => Action::Write {
                bytes,
                address: output,
                value: 0,
            },
            Action::Statx { path, flags, mask, output } => Action::Write {
                bytes,
                address: output,
                value: 0,
            },
            Action::ReadLink { path, buffer, size } => link_answer(bytes, buffer, size as nat),
            _ => action,
        },
        Outcome::Descriptor(fd) => match action {
            Action::Open { path, flags, mode, descriptor_flags } => Action::Inject {
                injection: file_injection(id, fd, descriptor_flags),
            },
            Action::Inject { injection } => Action::Answered { fd },
            Action::Execute { path, raw, address } => Action::InjectProgram {
                injection: program_injection(id, fd, platform.flags.o_cloexec),
                raw,
                address,
            },
            Action::InjectProgram { injection, raw, address } => if alias_of(fd).len()
                <= raw.len() {
                Action::Overwrite { bytes: alias_of(fd).push(0), address }
            } else {
                Action::Fail(platform.errors.enametoolong)
            },
            _ => action,
        },
        Outcome::Done(value) => match action {
            Action::Write { bytes, address, value: answer } => Action::Value(answer),
            Action::Overwrite { bytes, address } => Action::Continue,
            Action::Truncate { path, length } => Action::Value(value as i64),
            Action::ChangeMode { path, mode } => Action::Value(value as i64),
            Action::ChangeOwner { path, owner, group, flags } => Action::Value(value as i64),
            Action::SetTimes { path, times, flags } => Action::Value(value as i64),
            _ => Action::Value(0),
        },
    }
}

/// Goes on with the handling of the notification `id` after an action.
pub fn proceed(
    id: u64,
    action: Action<Vec<u8>>,
    outcome: Outcome<Vec<u8>>,
    platform: &Platform,
) -> (next: Action<Vec<u8>>)
    requires
        possible(action@, outcome@),
    ensures
        next@ == continued(id, action@, outcome@, *platform),
{
    match outcome {
        Outcome::Failed(error) => Action::Fail(error),
        Outcome::Bytes(bytes) => match action {
            Action::Stat { path, flags, output } => Action::Write {
                bytes,
                address: output,
                value: 0,
            },
            Action::Statx { path, flags, mask, output } => Action::Write {
                bytes,
                address: output,
                value: 0,
            },
            Action::ReadLink { path, buffer, size } => dispatch::answer_link(
                bytes.as_slice(),
                buffer,
                size,
            ),
            _ => action,
        },
        Outcome::Descriptor(fd) => match action {
            Action::Open { path, flags, mode, descriptor_flags } => Action::Inject {
                injection: Injection {
                    id,
                    flags: ADDFD_FLAG_SEND,
                    srcfd: fd as u32,
                    newfd: 0,
                    newfd_flags: descriptor_flags,
                },
            },
            Action::Inject { injection } => Action::Answered { fd },
            Action::Execute { path, raw, address } => Action::InjectProgram {
                injection: Injection {
                    id,
                    flags: 0,
                    srcfd: fd as u32,
                    newfd: 0,
                    newfd_flags: platform.flags.o_cloexec as u32,
                },
                raw,
                address,
            },
            Action::InjectProgram { injection, raw, address } => {
                match execute::rewritten_argument(raw.as_slice(), fd, platform) {
                    Ok(bytes) => Action::Overwrite { bytes, address },
                    Err(error) => Action::Fail(error),
                }
            },
            _ => action,
        },
        Outcome::Done(value) => match action {
            Action::Write { bytes, address, value: answer } => Action::Value(answer),
            Action::Overwrite { bytes, address } => Action::Continue,
            Action::Truncate { path, length } => Action::Value(value as i64),
            Action::ChangeMode { path, mode } => Action::Value(value as i64),
            Action::ChangeOwner { path, owner, group, flags } => Action::Value(value as i64),
            Action::SetTimes { path, times, flags } => Action::Value(value as i64),
            _ => Action::Value(0),
        },
    }
}

/// Every call is answered: each action leaves less to be done, so after three
/// actions at most the call goes on in the kernel, has failed, or has its
/// value or its descriptor.
pub proof fn law_every_call_is_answered(
    id: u64,
    action: Action<Seq<u8>>,
    outcome: Outcome<Seq<u8>>,
    platform: Platform,
)
    requires
        possible(action, outcome),
    ensures
        left(continued(id, action, outcome, platform)) < left(action) <= 3,
{
}

/// Whatever fails for a call fails the call with the same error.
pub proof fn law_failures_are_passed_on(
    id: u64,
    action: Action<Seq<u8>>,
    error: i32,
    platform: Platform,
)
    ensures
        continued(id, action, Outcome::Failed(error), platform) == Action::<Seq<u8>>::Fail(error),
{
}

/// A mapped program is run by the kernel itself: opened, injected and named by
/// its alias, the call goes on, and nothing beyond the path argument is
/// overwritten.
pub proof fn law_mapped_program_goes_on(
    id: u64,
    path: Seq<u8>,
    raw: Seq<u8>,
    address: u64,
    opened: i32,
    injected: i32,
    platform: Platform,
)
    requires
        alias_of(injected).len() <= raw.len(),
    ensures
        ({
            let start = Action::Execute { path, raw, address };
            let second = continued(id, start, Outcome::Descriptor(opened), platform);
            let third = continued(id, second, Outcome::Descriptor(injected), platform);
            &&& third == (Action::Overwrite { bytes: alias_of(injected).push(0), address })
            &&& third->Overwrite_bytes.len() <= raw.len() + 1
            &&& continued(id, third, Outcome::Done(0), platform) == Action::<Seq<u8>>::Continue
        }),
{
}

/// What an action is carried out for can come of it: a descriptor of what is opened or
/// injected, bytes of what is looked at or read, and a plain result of anything else.
/// Each of them can fail, and nothing comes of what has ended.
pub proof fn law_actions_bring_what_they_are_for(
    action: Action<Seq<u8>>,
    fd: i32,
    bytes: Seq<u8>,
    value: i32,
)
    ensures
        ({
            let over = action is Continue || action is Fail || action is Value || action is Answered;
            let opens = action is Open || action is Inject || action is Execute
                || action is InjectProgram;
            let looks = action is Stat || action is Statx || action is ReadLink;
            &&& possible(action, Outcome::Failed(value)) <==> !over
            &&& possible(action, Outcome::Descriptor(fd)) <==> opens
            &&& possible(action, Outcome::Bytes(bytes)) <==> looks
            &&& possible(action, Outcome::Done(value)) <==> !over && !opens && !looks
        }),
{
}

} // verus!
