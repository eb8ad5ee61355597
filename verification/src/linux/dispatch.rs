//! What each intercepted call does: the guest path it names becomes a physical
//! path, and the call becomes an action on that path.

use crate::bind;
use crate::bind::{BindView, Removal};
use crate::bytes;
use crate::bytes::{got, seen};
use crate::directory::{entries_of, DirEntry};
use crate::linux::listing::{advanced, delivered, Listing};
use crate::linux::platform::Platform;
use crate::linux::process;
use crate::linux::process::own_proc_cwd;
use crate::linux::seccomp;
use crate::linux::seccomp::{Injection, Response};
use crate::linux::state::{remembered_path, Held, State};
use crate::mapping;
use crate::mapping::{
    covers, projected, renamable, reserved, reserved_path, resolved, selection, valid, Binding,
};
use crate::number::ByteOrder;
use crate::path;
use crate::path::{absolute, components_of, names_of, normalized, parts_of};
use vstd::prelude::*;

verus! {

/// What is done for a call. Paths are physical.
#[derive(Debug, PartialEq, Eq)]
pub enum Action<P> {
    /// The call goes on in the kernel as it is.
    Continue,
    /// The call fails with an error number.
    Fail(i32),
    /// The call is answered with a value.
    Value(i64),
    /// Bytes are written to the memory of the process, and the call is answered
    /// with a value.
    Write { bytes: P, address: u64, value: i64 },
    /// A file is opened, and its descriptor injected.
    Open { path: P, flags: i32, mode: u32, descriptor_flags: u32 },
    Stat { path: P, flags: i32, output: u64 },
    Statx { path: P, flags: i32, mask: u32, output: u64 },
    Access { path: P, rights: i32, flags: i32 },
    MakeDirectory { path: P, mode: u32 },
    RemoveDirectory { path: P },
    RemoveFile { path: P },
    Rename { from: P, to: P },
    ReadLink { path: P, buffer: u64, size: usize },
    MakeLink { target: P, path: P },
    Truncate { path: P, length: i64 },
    ChangeMode { path: P, mode: u32 },
    ChangeOwner { path: P, owner: u32, group: u32, flags: i32 },
    SetTimes { path: P, times: u64, flags: i32 },
    /// A descriptor is injected, which answers the call.
    Inject { injection: Injection },
    /// A program is opened; `raw` is its path argument, which stands at
    /// `address`.
    Execute { path: P, raw: P, address: u64 },
    /// The program's descriptor is injected, which does not answer the call.
    InjectProgram { injection: Injection, raw: P, address: u64 },
    /// The path argument is overwritten, even where it is read-only.
    Overwrite { bytes: P, address: u64 },
    /// The call has been answered with the descriptor `fd`.
    Answered { fd: i32 },
}

impl View for Action<Vec<u8>> {
    type V = Action<Seq<u8>>;

    open spec fn view(&self) -> Action<Seq<u8>> {
        match *self {
            Action::Continue => Action::Continue,
            Action::Fail(error) => Action::Fail(error),
            Action::Value(value) => Action::Value(value),
            Action::Write { bytes, address, value } => Action::Write {
                bytes: bytes@,
                address,
                value,
            },
            Action::Open { path, flags, mode, descriptor_flags } => Action::Open {
                path: path@,
                flags,
                mode,
                descriptor_flags,
            },
            Action::Stat { path, flags, output } => Action::Stat { path: path@, flags, output },
            Action::Statx { path, flags, mask, output } => Action::Statx {
                path: path@,
                flags,
                mask,
                output,
            },
            Action::Access { path, rights, flags } => Action::Access { path: path@, rights, flags },
            Action::MakeDirectory { path, mode } => Action::MakeDirectory { path: path@, mode },
            Action::RemoveDirectory { path } => Action::RemoveDirectory { path: path@ },
            Action::RemoveFile { path } => Action::RemoveFile { path: path@ },
            Action::Rename { from, to } => Action::Rename { from: from@, to: to@ },
            Action::ReadLink { path, buffer, size } => Action::ReadLink {
                path: path@,
                buffer,
                size,
            },
            Action::MakeLink { target, path } => Action::MakeLink {
                target: target@,
                path: path@,
            },
            Action::Truncate { path, length } => Action::Truncate { path: path@, length },
            Action::ChangeMode { path, mode } => Action::ChangeMode { path: path@, mode },
            Action::ChangeOwner { path, owner, group, flags } => Action::ChangeOwner {
                path: path@,
                owner,
                group,
                flags,
            },
            Action::SetTimes { path, times, flags } => Action::SetTimes {
                path: path@,
                times,
                flags,
            },
            Action::Inject { injection } => Action::Inject { injection },
            Action::Execute { path, raw, address } => Action::Execute {
                path: path@,
                raw: raw@,
                address,
            },
            Action::InjectProgram { injection, raw, address } => Action::InjectProgram {
                injection,
                raw: raw@,
                address,
            },
            Action::Overwrite { bytes, address } => Action::Overwrite { bytes: bytes@, address },
            Action::Answered { fd } => Action::Answered { fd },
        }
    }
}

/// The error for a physical path that holds a zero byte, else nothing.
pub open spec fn spoiled(path: Seq<u8>, error: i32) -> Option<i32> {
    if path.contains(0) {
        Some(error)
    } else {
        None
    }
}

/// The action on a guest path: it fails as the reading of the path did, is left
/// to the kernel below `/dev`, `/proc` and `/sys`, and else is `deed` on the
/// physical path, which may hold no zero byte.
pub open spec fn acted(
    binds: Seq<Binding>,
    guest: Result<Seq<u8>, i32>,
    spoiled_error: i32,
    deed: spec_fn(Seq<u8>) -> Action<Seq<u8>>,
) -> Action<Seq<u8>> {
    match guest {
        Err(error) => Action::Fail(error),
        Ok(path) => if reserved_path(path) {
            Action::Continue
        } else {
            acted_everywhere(binds, guest, spoiled_error, deed)
        },
    }
}

/// The action on a guest path that is carried out below `/dev`, `/proc` and
/// `/sys` as well.
pub open spec fn acted_everywhere(
    binds: Seq<Binding>,
    guest: Result<Seq<u8>, i32>,
    spoiled_error: i32,
    deed: spec_fn(Seq<u8>) -> Action<Seq<u8>>,
) -> Action<Seq<u8>> {
    match guest {
        Err(error) => Action::Fail(error),
        Ok(path) => match spoiled(resolved(binds, path), spoiled_error) {
            Some(error) => Action::Fail(error),
            None => deed(resolved(binds, path)),
        },
    }
}

/// The outcome of looking up a guest path: its physical path, or what the call
/// is answered with instead.
enum Lookup {
    Physical(Vec<u8>),
    Answer(Action<Vec<u8>>),
}

/// Whether calls on a path are left to the kernel.
pub fn passthrough(path: &[u8]) -> (found: bool)
    ensures
        found == reserved_path(path@),
{
    bind::is_reserved(path)
}

/// A path that can be handed to the kernel: one without a zero byte.
pub fn c_path(path: Vec<u8>, error: i32) -> (answer: Result<Vec<u8>, i32>)
    ensures
        match answer {
            Ok(same) => spoiled(path@, error) is None && same@ == path@,
            Err(code) => spoiled(path@, error) == Some(code),
        },
{
    if bytes::contains(path.as_slice(), 0) {
        Err(error)
    } else {
        Ok(path)
    }
}

/// Looks up the physical path of a guest path.
fn look_up(view: &BindView, guest: &Result<Vec<u8>, i32>, error: i32) -> (lookup: Lookup)
    ensures
        match lookup {
            Lookup::Physical(path) => forall|deed: spec_fn(Seq<u8>) -> Action<Seq<u8>>|
                #[trigger] acted(view@, got(*guest), error, deed) == deed(path@),
            Lookup::Answer(action) => forall|deed: spec_fn(Seq<u8>) -> Action<Seq<u8>>|
                #[trigger] acted(view@, got(*guest), error, deed) == action@,
        },
{
    match guest {
        Err(code) => Lookup::Answer(Action::Fail(*code)),
        Ok(path) => {
            if passthrough(path.as_slice()) {
                return Lookup::Answer(Action::Continue);
            }
            match c_path(view.prepare_mutation(path.as_slice()), error) {
                Ok(physical) => Lookup::Physical(physical),
                Err(code) => Lookup::Answer(Action::Fail(code)),
            }
        },
    }
}

/// Looks up the physical path of a guest path wherever it lies.
fn look_up_everywhere(view: &BindView, guest: &Result<Vec<u8>, i32>, error: i32) -> (lookup: Lookup)
    ensures
        match lookup {
            Lookup::Physical(path) => forall|deed: spec_fn(Seq<u8>) -> Action<Seq<u8>>|
                #[trigger] acted_everywhere(view@, got(*guest), error, deed) == deed(path@),
            Lookup::Answer(action) => forall|deed: spec_fn(Seq<u8>) -> Action<Seq<u8>>|
                #[trigger] acted_everywhere(view@, got(*guest), error, deed) == action@,
        },
{
    match guest {
        Err(code) => Lookup::Answer(Action::Fail(*code)),
        Ok(path) => match c_path(view.resolve_projected(path.as_slice()), error) {
            Ok(physical) => Lookup::Physical(physical),
            Err(code) => Lookup::Answer(Action::Fail(code)),
        },
    }
}

/// Opens the physical path in the supervisor, with the flags of the call but for
/// close-on-exec, which goes to the injected descriptor.
pub fn handle_open(
    view: &BindView,
    guest: &Result<Vec<u8>, i32>,
    flags: i32,
    mode: u32,
    platform: &Platform,
) -> (action: Action<Vec<u8>>)
    ensures
        action@ == acted(
            view@,
            got(*guest),
            platform.errors.einval,
            |path: Seq<u8>|
                Action::Open {
                    path,
                    flags: flags & !platform.flags.o_cloexec,
                    mode,
                    descriptor_flags: (flags & platform.flags.o_cloexec) as u32,
                },
        ),
{
    match look_up(view, guest, platform.errors.einval) {
        Lookup::Answer(action) => action,
        Lookup::Physical(path) => Action::Open {
            path,
            flags: flags & !platform.flags.o_cloexec,
            mode,
            descriptor_flags: (flags & platform.flags.o_cloexec) as u32,
        },
    }
}

/// What is remembered of an opened file: a directory, by its flags or by what
/// it is, under the descriptor that the process got, where it can be listed.
pub open spec fn after_open(
    held: Held,
    key: u32,
    fd: i32,
    path: Seq<u8>,
    asked_directory: bool,
    is_directory: bool,
    entries: Option<Seq<crate::directory::Entry>>,
) -> Held {
    match entries {
        Some(entries) => if asked_directory || is_directory {
            Held {
                directories: held.directories.insert(
                    (key, fd),
                    Listing { path, entries, cursor: 0 },
                ),
                ..held
            }
        } else {
            held
        },
        None => held,
    }
}

/// The entries of a list that may be missing.
pub open spec fn listed_entries(entries: Option<Vec<DirEntry>>) -> Option<
    Seq<crate::directory::Entry>,
> {
    match entries {
        Some(entries) => Some(entries_of(entries@)),
        None => None,
    }
}

/// What is remembered of a file that was opened with `flags`.
pub open spec fn after_finish(
    held: Held,
    key: u32,
    fd: i32,
    path: Seq<u8>,
    flags: i32,
    is_directory: bool,
    entries: Option<Seq<crate::directory::Entry>>,
    platform: Platform,
) -> Held {
    after_open(
        held,
        key,
        fd,
        path,
        flags & platform.flags.o_directory != 0,
        is_directory,
        entries,
    )
}

/// Remembers a directory that was opened for a process as the descriptor `fd`.
pub fn finish_open(
    state: &mut State,
    key: u32,
    fd: i32,
    guest: Vec<u8>,
    flags: i32,
    is_directory: bool,
    entries: Option<Vec<DirEntry>>,
    platform: &Platform,
)
    ensures
        final(state)@ == after_finish(
            old(state)@,
            key,
            fd,
            guest@,
            flags,
            is_directory,
            listed_entries(entries),
            *platform,
        ),
{
    if flags & platform.flags.o_directory != 0 || is_directory {
        if let Some(entries) = entries {
            state.remember_directory(key, fd, guest, entries);
        }
    }
}

/// A look at a file; an empty path with the flag for it stands for the
/// descriptor itself, which the kernel knows.
pub fn handle_stat(
    view: &BindView,
    empty: bool,
    guest: &Result<Vec<u8>, i32>,
    flags: i32,
    output: u64,
    platform: &Platform,
) -> (action: Action<Vec<u8>>)
    ensures
        action@ == if empty && flags & platform.flags.at_empty_path != 0 {
            Action::Continue
        } else {
            acted(
                view@,
                got(*guest),
                platform.errors.einval,
                |path: Seq<u8>| Action::Stat { path, flags, output },
            )
        },
{
    if empty && flags & platform.flags.at_empty_path != 0 {
        return Action::Continue;
    }
    match look_up(view, guest, platform.errors.einval) {
        Lookup::Answer(action) => action,
        Lookup::Physical(path) => Action::Stat { path, flags, output },
    }
}

/// An extended look at a file.
pub fn handle_statx(
    view: &BindView,
    empty: bool,
    guest: &Result<Vec<u8>, i32>,
    flags: i32,
    mask: u32,
    output: u64,
    platform: &Platform,
) -> (action: Action<Vec<u8>>)
    ensures
        action@ == if empty && flags & platform.flags.at_empty_path != 0 {
            Action::Continue
        } else {
            acted(
                view@,
                got(*guest),
                platform.errors.einval,
                |path: Seq<u8>| Action::Statx { path, flags, mask, output },
            )
        },
{
    if empty && flags & platform.flags.at_empty_path != 0 {
        return Action::Continue;
    }
    match look_up(view, guest, platform.errors.einval) {
        Lookup::Answer(action) => action,
        Lookup::Physical(path) => Action::Statx { path, flags, mask, output },
    }
}

/// A test of the rights on a file. The physical path may hold no zero byte.
pub fn handle_access(
    view: &BindView,
    guest: &Result<Vec<u8>, i32>,
    rights: i32,
    flags: i32,
    platform: &Platform,
) -> (action: Action<Vec<u8>>)
    requires
        got(*guest) matches Ok(path) ==> reserved_path(path) || !resolved(view@, path).contains(0),
    ensures
        action@ == acted(
            view@,
            got(*guest),
            platform.errors.einval,
            |path: Seq<u8>| Action::Access { path, rights, flags },
        ),
        got(*guest) matches Ok(path) ==> action@ !is Fail,
{
    match look_up(view, guest, platform.errors.einval) {
        Lookup::Answer(action) => {
            let ghost deed = |path: Seq<u8>| Action::Access { path, rights, flags };
            assert(acted(view@, got(*guest), platform.errors.einval, deed) == action@);
            action
        },
        Lookup::Physical(path) => Action::Access { path, rights, flags },
    }
}

/// The creation of a directory.
pub fn handle_mkdir(
    view: &BindView,
    guest: &Result<Vec<u8>, i32>,
    mode: u32,
    platform: &Platform,
) -> (action: Action<Vec<u8>>)
    ensures
        action@ == acted_everywhere(
            view@,
            got(*guest),
            platform.errors.eio,
            |path: Seq<u8>| Action::MakeDirectory { path, mode },
        ),
{
    match look_up_everywhere(view, guest, platform.errors.eio) {
        Lookup::Answer(action) => action,
        Lookup::Physical(path) => Action::MakeDirectory { path, mode },
    }
}

/// The removal of a directory or a file.
pub fn handle_unlink(
    view: &BindView,
    guest: &Result<Vec<u8>, i32>,
    flags: i32,
    platform: &Platform,
) -> (action: Action<Vec<u8>>)
    ensures
        action@ == acted_everywhere(
            view@,
            got(*guest),
            platform.errors.eio,
            |path: Seq<u8>|
                if flags & platform.flags.at_removedir != 0 {
                    Action::RemoveDirectory { path }
                } else {
                    Action::RemoveFile { path }
                },
        ),
{
    match guest {
        Err(error) => Action::Fail(*error),
        Ok(path) => {
            let remove_dir = flags & platform.flags.at_removedir != 0;
            match view.unlink(path.as_slice(), remove_dir) {
                Removal::Directory(physical) => match c_path(physical, platform.errors.eio) {
                    Ok(path) => Action::RemoveDirectory { path },
                    Err(error) => Action::Fail(error),
                },
                Removal::File(physical) => match c_path(physical, platform.errors.eio) {
                    Ok(path) => Action::RemoveFile { path },
                    Err(error) => Action::Fail(error),
                },
            }
        },
    }
}

/// The action of a rename between two guest paths: within one mapping it is
/// carried out in its source, outside of every mapping on the paths themselves,
/// and across a border it fails.
pub open spec fn renamed(
    binds: Seq<Binding>,
    from: Result<Seq<u8>, i32>,
    to: Result<Seq<u8>, i32>,
    variant: u32,
    unsupported: i32,
    spoiled_error: i32,
) -> Action<Seq<u8>> {
    if variant != 0 {
        Action::Fail(unsupported)
    } else {
        match (from, to) {
            (Err(error), _) | (Ok(_), Err(error)) => Action::Fail(error),
            (Ok(from), Ok(to)) => if !renamable(binds, from, to) && (projected(binds, from)
                || projected(binds, to)) {
                Action::Fail(bind::EXDEV)
            } else if resolved(binds, from).contains(0) || resolved(binds, to).contains(0) {
                Action::Fail(spoiled_error)
            } else {
                Action::Rename { from: resolved(binds, from), to: resolved(binds, to) }
            },
        }
    }
}

/// A rename.
pub fn handle_rename(
    view: &BindView,
    from: &Result<Vec<u8>, i32>,
    to: &Result<Vec<u8>, i32>,
    variant: u32,
    platform: &Platform,
) -> (action: Action<Vec<u8>>)
    ensures
        action@ == renamed(
            view@,
            got(*from),
            got(*to),
            variant,
            platform.errors.enotsup,
            platform.errors.eio,
        ),
{
    if variant != 0 {
        return Action::Fail(platform.errors.enotsup);
    }
    let from = match from {
        Ok(path) => path.as_slice(),
        Err(error) => return Action::Fail(*error),
    };
    let to = match to {
        Ok(path) => path.as_slice(),
        Err(error) => return Action::Fail(*error),
    };
    let (from, to) = if !view.projects(from) && !view.projects(to) {
        (view.resolve_projected(from), view.resolve_projected(to))
    } else {
        match view.rename(from, to) {
            Ok(plan) => (plan.from, plan.to),
            Err(error) => return Action::Fail(error),
        }
    };
    if bytes::contains(from.as_slice(), 0) || bytes::contains(to.as_slice(), 0) {
        return Action::Fail(platform.errors.eio);
    }
    Action::Rename { from, to }
}

/// A link's target as it is handed over: cut off at the size of the buffer.
pub open spec fn link_answer(target: Seq<u8>, buffer: u64, size: nat) -> Action<Seq<u8>> {
    let length = if size < target.len() {
        size
    } else {
        target.len()
    };
    Action::Write { bytes: target.take(length as int), address: buffer, value: length as i64 }
}

/// Hands the target of a link over.
pub fn answer_link(target: &[u8], buffer: u64, size: usize) -> (action: Action<Vec<u8>>)
    ensures
        action@ == link_answer(target@, buffer, size as nat),
{
    let length: usize = if size < target.len() {
        size
    } else {
        target.len()
    };
    let bytes = bytes::range(target, 0, length);
    assert(bytes@ =~= target@.take(length as int));
    Action::Write { bytes, address: buffer, value: length as i64 }
}

/// The reading of a link. The link to the process's own working directory tells
/// the guest working directory, where one is known.
pub fn handle_readlink(
    view: &BindView,
    guest: &Result<Vec<u8>, i32>,
    pid: u32,
    key: u32,
    cwd: &Option<Vec<u8>>,
    buffer: u64,
    size: usize,
    platform: &Platform,
) -> (action: Action<Vec<u8>>)
    ensures
        action@ == match (got(*guest), seen(*cwd)) {
            (Ok(path), Some(cwd)) if own_proc_cwd(path, pid, key) => link_answer(
                cwd,
                buffer,
                size as nat,
            ),
            _ => acted(
                view@,
                got(*guest),
                platform.errors.eio,
                |path: Seq<u8>| Action::ReadLink { path, buffer, size },
            ),
        },
{
    if let Ok(path) = guest {
        if let Some(cwd) = cwd {
            if process::is_own_proc_cwd(path.as_slice(), pid, key) {
                return answer_link(cwd.as_slice(), buffer, size);
            }
        }
    }
    match look_up(view, guest, platform.errors.eio) {
        Lookup::Answer(action) => action,
        Lookup::Physical(path) => Action::ReadLink { path, buffer, size },
    }
}

/// The creation of a link: the target stays as it is spelled, the link's own
/// path is resolved.
pub fn handle_symlink(
    view: &BindView,
    target: &Result<Vec<u8>, i32>,
    link: &Result<Vec<u8>, i32>,
    platform: &Platform,
) -> (action: Action<Vec<u8>>)
    ensures
        action@ == match got(*target) {
            Err(error) => Action::Fail(error),
            Ok(target) => acted_everywhere(
                view@,
                got(*link),
                platform.errors.eio,
                |path: Seq<u8>|
                    if target.contains(0) {
                        Action::Fail(platform.errors.eio)
                    } else {
                        Action::MakeLink { target, path }
                    },
            ),
        },
{
    let target = match target {
        Ok(target) => target,
        Err(error) => return Action::Fail(*error),
    };
    match look_up_everywhere(view, link, platform.errors.eio) {
        Lookup::Answer(action) => action,
        Lookup::Physical(path) => {
            if bytes::contains(target.as_slice(), 0) {
                return Action::Fail(platform.errors.eio);
            }
            Action::MakeLink { target: bytes::copy(target.as_slice()), path }
        },
    }
}

/// What a request for directory records is answered with.
pub open spec fn listing_answer(
    order: ByteOrder,
    held: Held,
    key: u32,
    fd: i32,
    buffer: u64,
    capacity: nat,
    stuck: i32,
) -> Action<Seq<u8>> {
    if !held.directories.contains_key((key, fd)) {
        Action::Continue
    } else {
        match delivered(order, held.directories[(key, fd)], capacity) {
            None => Action::Fail(stuck),
            Some(bytes) => Action::Write { bytes, address: buffer, value: bytes.len() as i64 },
        }
    }
}

/// A request for directory records: a descriptor that no directory is remembered
/// for is left to the kernel.
pub fn handle_getdents(
    state: &mut State,
    key: u32,
    fd: i32,
    buffer: u64,
    capacity: usize,
    order: ByteOrder,
    platform: &Platform,
) -> (action: Action<Vec<u8>>)
    ensures
        action@ == listing_answer(
            order,
            old(state)@,
            key,
            fd,
            buffer,
            capacity as nat,
            platform.errors.einval,
        ),
        final(state)@ == if old(state)@.directories.contains_key((key, fd)) {
            Held {
                directories: old(state)@.directories.insert(
                    (key, fd),
                    advanced(old(state)@.directories[(key, fd)], capacity as nat),
                ),
                ..old(state)@
            }
        } else {
            old(state)@
        },
{
    match state.deliver(key, fd, order, capacity) {
        None => Action::Continue,
        Some(None) => Action::Fail(platform.errors.einval),
        Some(Some(bytes)) => {
            let value = bytes.len() as i64;
            Action::Write { bytes, address: buffer, value }
        },
    }
}

/// What a change of the working directory is answered with, given what a look at
/// the physical path found.
pub open spec fn entered(
    binds: Seq<Binding>,
    guest: Result<Seq<u8>, i32>,
    found: Result<bool, i32>,
    not_a_directory: i32,
) -> Action<Seq<u8>> {
    match guest {
        Err(error) => Action::Fail(error),
        Ok(path) => if reserved_path(path) {
            Action::Continue
        } else {
            match found {
                Err(error) => Action::Fail(error),
                Ok(false) => Action::Fail(not_a_directory),
                Ok(true) => if parts_of(resolved(binds, path)) == parts_of(path) {
                    Action::Continue
                } else {
                    Action::Value(0)
                },
            }
        },
    }
}

/// What is remembered after a change of the working directory.
pub open spec fn after_enter(
    held: Held,
    key: u32,
    guest: Result<Seq<u8>, i32>,
    found: Result<bool, i32>,
) -> Held {
    match guest {
        Ok(path) => if reserved_path(path) || found == Ok::<bool, i32>(true) {
            Held { cwds: held.cwds.insert(key, path), ..held }
        } else {
            held
        },
        Err(_) => held,
    }
}

/// A change of the working directory to a guest path. The kernel follows where
/// the physical path is the guest path; elsewhere the directory is only
/// remembered.
pub fn handle_chdir(
    state: &mut State,
    key: u32,
    guest: &Result<Vec<u8>, i32>,
    found: Result<bool, i32>,
    platform: &Platform,
) -> (action: Action<Vec<u8>>)
    ensures
        action@ == entered(old(state)@.binds, got(*guest), found, platform.errors.enotdir),
        final(state)@ == after_enter(old(state)@, key, got(*guest), found),
{
    let path = match guest {
        Ok(path) => path.as_slice(),
        Err(error) => return Action::Fail(*error),
    };
    if passthrough(path) {
        state.remember_cwd(key, bytes::copy(path));
        return Action::Continue;
    }
    match found {
        Ok(true) => {
            let physical = state.bind_view().resolve_read(path);
            let same = path::same_path(physical.as_slice(), path);
            state.remember_cwd(key, bytes::copy(path));
            if same {
                Action::Continue
            } else {
                Action::Value(0)
            }
        },
        Ok(false) => Action::Fail(platform.errors.enotdir),
        Err(error) => Action::Fail(error),
    }
}

/// A change of the working directory to a descriptor: the directory that is
/// remembered for it is entered by its guest path, and a descriptor that none is
/// remembered for is left to the kernel.
pub fn handle_fchdir(
    state: &mut State,
    key: u32,
    fd: i32,
    found: Result<bool, i32>,
    platform: &Platform,
) -> (action: Action<Vec<u8>>)
    ensures
        match remembered_path(old(state)@, key, fd) {
            None => action@ == Action::<Seq<u8>>::Continue && final(state)@ == old(state)@,
            Some(path) => action@ == entered(
                old(state)@.binds,
                Ok(path),
                found,
                platform.errors.enotdir,
            ) && final(state)@ == after_enter(old(state)@, key, Ok(path), found),
        },
{
    match state.directory_path(key, fd) {
        None => Action::Continue,
        Some(path) => handle_chdir(state, key, &Ok(path), found, platform),
    }
}

/// What a request for the working directory is answered with.
pub open spec fn cwd_answer(
    cwd: Option<Seq<u8>>,
    buffer: u64,
    size: nat,
    too_small: i32,
) -> Action<Seq<u8>> {
    match cwd {
        None => Action::Continue,
        Some(path) => if path.len() + 1 > size {
            Action::Fail(too_small)
        } else {
            Action::Write { bytes: path.push(0), address: buffer, value: (path.len() + 1) as i64 }
        },
    }
}

/// A request for the working directory.
pub fn handle_getcwd(cwd: &Option<Vec<u8>>, buffer: u64, size: usize, platform: &Platform) -> (action:
    Action<Vec<u8>>)
    ensures
        action@ == cwd_answer(seen(*cwd), buffer, size as nat, platform.errors.erange),
{
    match cwd {
        None => Action::Continue,
        Some(path) => {
            if path.len() >= size {
                return Action::Fail(platform.errors.erange);
            }
            let mut bytes = bytes::copy(path.as_slice());
            bytes.push(0);
            let value = bytes.len() as i64;
            Action::Write { bytes, address: buffer, value }
        },
    }
}

/// A change of a file's length.
pub fn handle_truncate(
    view: &BindView,
    guest: &Result<Vec<u8>, i32>,
    length: i64,
    platform: &Platform,
) -> (action: Action<Vec<u8>>)
    ensures
        action@ == acted(
            view@,
            got(*guest),
            platform.errors.einval,
            |path: Seq<u8>| Action::Truncate { path, length },
        ),
{
    match look_up(view, guest, platform.errors.einval) {
        Lookup::Answer(action) => action,
        Lookup::Physical(path) => Action::Truncate { path, length },
    }
}

/// A change of a file's mode.
pub fn handle_chmod(
    view: &BindView,
    guest: &Result<Vec<u8>, i32>,
    mode: u32,
    platform: &Platform,
) -> (action: Action<Vec<u8>>)
    ensures
        action@ == acted(
            view@,
            got(*guest),
            platform.errors.einval,
            |path: Seq<u8>| Action::ChangeMode { path, mode },
        ),
{
    match look_up(view, guest, platform.errors.einval) {
        Lookup::Answer(action) => action,
        Lookup::Physical(path) => Action::ChangeMode { path, mode },
    }
}

/// A change of a file's owner.
pub fn handle_chown(
    view: &BindView,
    guest: &Result<Vec<u8>, i32>,
    owner: u32,
    group: u32,
    flags: i32,
    platform: &Platform,
) -> (action: Action<Vec<u8>>)
    ensures
        action@ == acted(
            view@,
            got(*guest),
            platform.errors.einval,
            |path: Seq<u8>| Action::ChangeOwner { path, owner, group, flags },
        ),
{
    match look_up(view, guest, platform.errors.einval) {
        Lookup::Answer(action) => action,
        Lookup::Physical(path) => Action::ChangeOwner { path, owner, group, flags },
    }
}

/// A change of a file's times.
pub fn handle_utimensat(
    view: &BindView,
    guest: &Result<Vec<u8>, i32>,
    times: u64,
    flags: i32,
    platform: &Platform,
) -> (action: Action<Vec<u8>>)
    ensures
        action@ == acted(
            view@,
            got(*guest),
            platform.errors.einval,
            |path: Seq<u8>| Action::SetTimes { path, times, flags },
        ),
{
    match look_up(view, guest, platform.errors.einval) {
        Lookup::Answer(action) => action,
        Lookup::Physical(path) => Action::SetTimes { path, times, flags },
    }
}

/// The response to the notification `id` that an action amounts to, where it
/// needs nothing else to be done.
pub open spec fn answer_of(id: u64, action: Action<Seq<u8>>) -> Option<Response> {
    match action {
        Action::Continue => Some(seccomp::going_on(id)),
        Action::Fail(error) => Some(seccomp::failed(id, error)),
        Action::Value(value) => Some(seccomp::valued(id, value)),
        _ => None,
    }
}

/// The response to the notification `id` that an action amounts to.
pub fn immediate_response(id: u64, action: &Action<Vec<u8>>) -> (response: Option<Response>)
    requires
        action@ matches Action::Fail(error) ==> error > i32::MIN,
    ensures
        response == answer_of(id, action@),
        match action@ {
            Action::Continue => response == Some(
                Response { id, val: 0, error: 0, flags: seccomp::USER_NOTIF_FLAG_CONTINUE },
            ),
            Action::Fail(error) => response is Some && response->0.id == id && response->0.val == 0
                && response->0.error == -error && response->0.flags == 0,
            Action::Value(value) => response == Some(
                Response { id, val: value, error: 0, flags: 0 },
            ),
            _ => response is None,
        },
{
    match action {
        Action::Continue => Some(seccomp::respond_continue(id)),
        Action::Fail(error) => Some(seccomp::respond_error(id, *error)),
        Action::Value(value) => Some(seccomp::respond_value(id, *value)),
        _ => None,
    }
}

/// Calls on a mapped path reach the source of its mapping and nothing else: the
/// components of the physical path that any action is carried out on are those
/// of the source, followed by what the guest path has below the destination.
pub proof fn law_action_stays_in_source(
    binds: Seq<Binding>,
    path: Seq<u8>,
    spoiled_error: i32,
    deed: spec_fn(Seq<u8>) -> Action<Seq<u8>>,
)
    requires
        valid(binds),
        absolute(path),
        path == normalized(path),
        projected(binds, path),
    ensures
        ({
            let binding = binds[selection(binds, names_of(path))->0];
            let physical = resolved(binds, path);
            &&& acted(binds, Ok(path), spoiled_error, deed) == (if physical.contains(0) {
                Action::Fail(spoiled_error)
            } else {
                deed(physical)
            })
            &&& components_of(physical) == components_of(binding.source) + names_of(path).skip(
                binding.names.len() as int,
            )
        }),
{
    mapping::law_projection_replaces_destination(binds, path);
    path::lemma_names_are_plain(path);
    mapping::lemma_plain_are_names(names_of(path));
    path::law_components_of_render(names_of(path));
    assert(components_of(path) == names_of(path));
    assert(!reserved(names_of(path)));
}

/// Calls on a path outside of every mapping act on that path itself.
pub proof fn law_action_outside_keeps_path(
    binds: Seq<Binding>,
    path: Seq<u8>,
    spoiled_error: i32,
    deed: spec_fn(Seq<u8>) -> Action<Seq<u8>>,
)
    requires
        !reserved_path(path),
        path == normalized(path),
        !path.contains(0),
        forall|j: int| 0 <= j < binds.len() ==> !covers(#[trigger] binds[j], names_of(path)),
    ensures
        acted(binds, Ok(path), spoiled_error, deed) == deed(path),
{
    mapping::law_outside_paths_are_untouched(binds, path);
}

/// A rename with exactly one end in a mapping, or with its ends in two mappings,
/// fails with `EXDEV`.
pub proof fn law_rename_keeps_borders(
    binds: Seq<Binding>,
    from: Seq<u8>,
    to: Seq<u8>,
    unsupported: i32,
    spoiled_error: i32,
)
    requires
        selection(binds, names_of(from)) != selection(binds, names_of(to)),
    ensures
        renamed(binds, Ok(from), Ok(to), 0, unsupported, spoiled_error) == Action::<Seq<u8>>::Fail(
            bind::EXDEV,
        ),
{
}

/// The working directory is where the last change led: after a change that was
/// not refused, the process is told exactly that guest path, whether or not the
/// kernel followed.
pub proof fn law_getcwd_tells_last_chdir(
    held: Held,
    key: u32,
    path: Seq<u8>,
    found: Result<bool, i32>,
    not_a_directory: i32,
    buffer: u64,
    size: nat,
    too_small: i32,
)
    requires
        !(entered(held.binds, Ok(path), found, not_a_directory) is Fail),
        path.len() < size,
    ensures
        ({
            let after = after_enter(held, key, Ok(path), found);
            &&& after.cwds.contains_key(key)
            &&& cwd_answer(Some(after.cwds[key]), buffer, size, too_small) == (Action::Write {
                bytes: path.push(0),
                address: buffer,
                value: (path.len() + 1) as i64,
            })
        }),
{
}

/// A change of the working directory that is refused leaves everything as it
/// was.
pub proof fn law_refused_chdir_changes_nothing(
    held: Held,
    key: u32,
    guest: Result<Seq<u8>, i32>,
    found: Result<bool, i32>,
    not_a_directory: i32,
)
    requires
        entered(held.binds, guest, found, not_a_directory) is Fail,
    ensures
        after_enter(held, key, guest, found) == held,
{
}

/// Every action that ends the handling of a call is answered at once, and as what it
/// is; an action that is still to be carried out, or that has answered the call
/// itself, is not.
pub proof fn law_final_actions_are_answered(id: u64, action: Action<Seq<u8>>, error: i32, value: i64)
    requires
        error > i32::MIN,
    ensures
        answer_of(id, Action::Continue) matches Some(response) && response.id == id && response.val
            == 0 && response.error == 0 && response.flags == 1,
        answer_of(id, Action::Fail(error)) matches Some(response) && response.id == id
            && response.val == 0 && response.error + error == 0 && response.flags == 0,
        answer_of(id, Action::Value(value)) matches Some(response) && response.id == id
            && response.val == value && response.error == 0 && response.flags == 0,
        answer_of(id, action) is Some <==> action is Continue || action is Fail || action is Value,
{
}

/// A file is remembered as a directory where the call asked for one by its flag or
/// where it is one, provided that it can be listed; whatever else the flags say does
/// not matter.
pub proof fn law_directories_are_remembered_by_flag_or_kind(
    held: Held,
    key: u32,
    fd: i32,
    path: Seq<u8>,
    flags: i32,
    is_directory: bool,
    entries: Seq<crate::directory::Entry>,
    platform: Platform,
)
    ensures
        ({
            let after = after_finish(
                held,
                key,
                fd,
                path,
                flags,
                is_directory,
                Some(entries),
                platform,
            );
            &&& is_directory || flags & platform.flags.o_directory != 0 ==> after == (Held {
                directories: held.directories.insert(
                    (key, fd),
                    Listing { path, entries, cursor: 0 },
                ),
                ..held
            })
            &&& !is_directory && flags & platform.flags.o_directory == 0 ==> after == held
            &&& after_finish(held, key, fd, path, flags, is_directory, None, platform) == held
        }),
{
}

} // verus!
