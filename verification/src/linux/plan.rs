//! From an intercepted call to its first action: what has to be found out about
//! the call, and what is done with it.

use crate::bytes::{got, seen};
use crate::linux::calls::Call;
use crate::linux::dispatch;
use crate::linux::dispatch::{
    acted, acted_everywhere, after_enter, cwd_answer, entered, link_answer, listing_answer,
    renamed, Action,
};
use crate::linux::execute;
use crate::linux::execute::executed;
use crate::linux::listing::advanced;
use crate::linux::platform::Platform;
use crate::linux::process::own_proc_cwd;
use crate::linux::state::{remembered_path, Held, State};
use crate::mapping;
use crate::mapping::{projected, reserved_path, resolved, selection, valid};
use crate::number::ByteOrder;
use crate::path::{begins_with, components_of, names_of};
use vstd::prelude::*;

verus! {

/// A path argument: the descriptor that it is relative to and its address.
#[derive(Clone, Copy, PartialEq, Eq, Structural, Debug)]
pub struct PathArgument {
    pub dirfd: i32,
    pub address: u64,
}

/// What has to be found out about a call.
#[derive(Clone, Copy, PartialEq, Eq, Structural, Debug)]
pub struct Needs {
    /// The path argument, as it is read and as a guest path.
    pub path: Option<PathArgument>,
    /// The second path argument, as a guest path.
    pub other: Option<PathArgument>,
    /// A text that is only read.
    pub target: Option<u64>,
    /// A structure that says how to open a file.
    pub how: Option<u64>,
    /// The descriptor whose remembered directory is looked at.
    pub directory: Option<i32>,
    /// The guest working directory.
    pub cwd: bool,
    /// Whether the path, or else the directory, is a directory.
    pub found: bool,
}

/// Nothing has to be found out.
pub open spec fn nothing() -> Needs {
    Needs {
        path: None,
        other: None,
        target: None,
        how: None,
        directory: None,
        cwd: false,
        found: false,
    }
}

/// What has to be found out about a call.
pub open spec fn needed(call: Call, here: i32) -> Needs {
    match call {
        Call::Open { dirfd, path, flags, mode } => Needs {
            path: Some(PathArgument { dirfd, address: path }),
            ..nothing()
        },
        Call::OpenHow { dirfd, path, how } => Needs {
            path: Some(PathArgument { dirfd, address: path }),
            how: Some(how),
            ..nothing()
        },
        Call::Stat { dirfd, path, output, flags } => Needs {
            path: Some(PathArgument { dirfd, address: path }),
            ..nothing()
        },
        Call::Statx { dirfd, path, flags, mask, output } => Needs {
            path: Some(PathArgument { dirfd, address: path }),
            ..nothing()
        },
        Call::Access { dirfd, path, rights, flags } => Needs {
            path: Some(PathArgument { dirfd, address: path }),
            ..nothing()
        },
        Call::MakeDirectory { dirfd, path, mode } => Needs {
            path: Some(PathArgument { dirfd, address: path }),
            ..nothing()
        },
        Call::Remove { dirfd, path, flags } => Needs {
            path: Some(PathArgument { dirfd, address: path }),
            ..nothing()
        },
        Call::Rename { from_dirfd, from, to_dirfd, to, variant } => if variant != 0 {
            nothing()
        } else {
            Needs {
                path: Some(PathArgument { dirfd: from_dirfd, address: from }),
                other: Some(PathArgument { dirfd: to_dirfd, address: to }),
                ..nothing()
            }
        },
        Call::ReadLink { dirfd, path, buffer, size } => Needs {
            path: Some(PathArgument { dirfd, address: path }),
            cwd: true,
            ..nothing()
        },
        Call::MakeLink { target, dirfd, link } => Needs {
            path: Some(PathArgument { dirfd, address: link }),
            target: Some(target),
            ..nothing()
        },
        Call::List { fd, buffer, capacity } => nothing(),
        Call::Enter { path } => Needs {
            path: Some(PathArgument { dirfd: here, address: path }),
            found: true,
            ..nothing()
        },
        Call::EnterDescriptor { fd } => Needs { directory: Some(fd), found: true, ..nothing() },
        Call::WorkingDirectory { buffer, size } => Needs { cwd: true, ..nothing() },
        Call::Truncate { path, length } => Needs {
            path: Some(PathArgument { dirfd: here, address: path }),
            ..nothing()
        },
        Call::ChangeMode { dirfd, path, mode } => Needs {
            path: Some(PathArgument { dirfd, address: path }),
            ..nothing()
        },
        Call::ChangeOwner { dirfd, path, owner, group, flags } => Needs {
            path: Some(PathArgument { dirfd, address: path }),
            ..nothing()
        },
        Call::SetTimes { dirfd, path, times, flags } => Needs {
            path: Some(PathArgument { dirfd, address: path }),
            ..nothing()
        },
        Call::Execute { dirfd, path, flags } => Needs {
            path: Some(PathArgument { dirfd, address: path }),
            ..nothing()
        },
        Call::Other => nothing(),
    }
}

/// What a call needs when all it needs is one path argument.
fn one_path(dirfd: i32, address: u64) -> (needs: Needs)
    ensures
        needs == (Needs { path: Some(PathArgument { dirfd, address }), ..nothing() }),
{
    Needs {
        path: Some(PathArgument { dirfd, address }),
        other: None,
        target: None,
        how: None,
        directory: None,
        cwd: false,
        found: false,
    }
}

/// What has to be found out about a call.
pub fn needs(call: &Call, platform: &Platform) -> (needs: Needs)
    ensures
        needs == needed(*call, platform.flags.at_fdcwd),
{
    let none = Needs {
        path: None,
        other: None,
        target: None,
        how: None,
        directory: None,
        cwd: false,
        found: false,
    };
    let here = platform.flags.at_fdcwd;
    match *call {
        Call::Open { dirfd, path, flags, mode } => one_path(dirfd, path),
        Call::OpenHow { dirfd, path, how } => Needs { how: Some(how), ..one_path(dirfd, path) },
        Call::Stat { dirfd, path, output, flags } => one_path(dirfd, path),
        Call::Statx { dirfd, path, flags, mask, output } => one_path(dirfd, path),
        Call::Access { dirfd, path, rights, flags } => one_path(dirfd, path),
        Call::MakeDirectory { dirfd, path, mode } => one_path(dirfd, path),
        Call::Remove { dirfd, path, flags } => one_path(dirfd, path),
        Call::Rename { from_dirfd, from, to_dirfd, to, variant } => if variant != 0 {
            none
        } else {
            Needs {
                other: Some(PathArgument { dirfd: to_dirfd, address: to }),
                ..one_path(from_dirfd, from)
            }
        },
        Call::ReadLink { dirfd, path, buffer, size } => Needs {
            cwd: true,
            ..one_path(dirfd, path)
        },
        Call::MakeLink { target, dirfd, link } => Needs {
            target: Some(target),
            ..one_path(dirfd, link)
        },
        Call::List { fd, buffer, capacity } => none,
        Call::Enter { path } => Needs { found: true, ..one_path(here, path) },
        Call::EnterDescriptor { fd } => Needs { directory: Some(fd), found: true, ..none },
        Call::WorkingDirectory { buffer, size } => Needs { cwd: true, ..none },
        Call::Truncate { path, length } => one_path(here, path),
        Call::ChangeMode { dirfd, path, mode } => one_path(dirfd, path),
        Call::ChangeOwner { dirfd, path, owner, group, flags } => one_path(dirfd, path),
        Call::SetTimes { dirfd, path, times, flags } => one_path(dirfd, path),
        Call::Execute { dirfd, path, flags } => one_path(dirfd, path),
        Call::Other => none,
    }
}

/// What was found out about a call.
#[derive(Debug)]
pub struct Facts<P> {
    /// The process that made the call, and the one that it belongs to.
    pub pid: u32,
    pub key: u32,
    /// The path argument as it was read, and the guest path that it stands for.
    pub raw: Result<P, i32>,
    pub guest: Result<P, i32>,
    /// The guest path of the second path argument.
    pub other: Result<P, i32>,
    /// The text that is only read.
    pub target: Result<P, i32>,
    /// Flags and mode of opening.
    pub how: Result<(i32, u32), i32>,
    /// The guest working directory, where it is known.
    pub cwd: Option<P>,
    /// Whether the path, or else the directory, is a directory.
    pub found: Result<bool, i32>,
}

impl View for Facts<Vec<u8>> {
    type V = Facts<Seq<u8>>;

    open spec fn view(&self) -> Facts<Seq<u8>> {
        Facts {
            pid: self.pid,
            key: self.key,
            raw: got(self.raw),
            guest: got(self.guest),
            other: got(self.other),
            target: got(self.target),
            how: self.how,
            cwd: seen(self.cwd),
            found: self.found,
        }
    }
}

/// The path argument was read and is empty.
pub open spec fn is_empty(raw: Result<Seq<u8>, i32>) -> bool {
    raw matches Ok(raw) && raw.len() == 0
}

/// The action that opens a guest path.
pub open spec fn opened(
    held: Held,
    guest: Result<Seq<u8>, i32>,
    flags: i32,
    mode: u32,
    platform: Platform,
) -> Action<Seq<u8>> {
    acted(
        held.binds,
        guest,
        platform.errors.einval,
        |path: Seq<u8>|
            Action::Open {
                path,
                flags: flags & !platform.flags.o_cloexec,
                mode,
                descriptor_flags: (flags & platform.flags.o_cloexec) as u32,
            },
    )
}

/// The first action for a call.
pub open spec fn planned(
    held: Held,
    call: Call,
    facts: Facts<Seq<u8>>,
    order: ByteOrder,
    platform: Platform,
) -> Action<Seq<u8>> {
    let binds = held.binds;
    let guest = facts.guest;
    let invalid = platform.errors.einval;
    let broken = platform.errors.eio;
    match call {
        Call::Open { dirfd, path, flags, mode } => opened(held, guest, flags, mode, platform),
        Call::OpenHow { dirfd, path, how } => match facts.how {
            Err(error) => Action::Fail(error),
            Ok((flags, mode)) => opened(held, guest, flags, mode, platform),
        },
        Call::Stat { dirfd, path, output, flags } => if is_empty(facts.raw) && flags
            & platform.flags.at_empty_path != 0 {
            Action::Continue
        } else {
            acted(binds, guest, invalid, |path: Seq<u8>| Action::Stat { path, flags, output })
        },
        Call::Statx { dirfd, path, flags, mask, output } => if is_empty(facts.raw) && flags
            & platform.flags.at_empty_path != 0 {
            Action::Continue
        } else {
            acted(
                binds,
                guest,
                invalid,
                |path: Seq<u8>| Action::Statx { path, flags, mask, output },
            )
        },
        Call::Access { dirfd, path, rights, flags } => acted(
            binds,
            guest,
            invalid,
            |path: Seq<u8>| Action::Access { path, rights, flags },
        ),
        Call::MakeDirectory { dirfd, path, mode } => acted_everywhere(
            binds,
            guest,
            broken,
            |path: Seq<u8>| Action::MakeDirectory { path, mode },
        ),
        Call::Remove { dirfd, path, flags } => acted_everywhere(
            binds,
            guest,
            broken,
            |path: Seq<u8>|
                if flags & platform.flags.at_removedir != 0 {
                    Action::RemoveDirectory { path }
                } else {
                    Action::RemoveFile { path }
                },
        ),
        Call::Rename { from_dirfd, from, to_dirfd, to, variant } => renamed(
            binds,
            guest,
            facts.other,
            variant,
            platform.errors.enotsup,
            broken,
        ),
        Call::ReadLink { dirfd, path, buffer, size } => match (guest, facts.cwd) {
            (Ok(path), Some(cwd)) if own_proc_cwd(path, facts.pid, facts.key) => link_answer(
                cwd,
                buffer,
                size as nat,
            ),
            _ => acted(
                binds,
                guest,
                broken,
                |path: Seq<u8>| Action::ReadLink { path, buffer, size },
            ),
        },
        Call::MakeLink { target, dirfd, link } => match facts.target {
            Err(error) => Action::Fail(error),
            Ok(target) => acted_everywhere(
                binds,
                guest,
                broken,
                |path: Seq<u8>|
                    if target.contains(0) {
                        Action::Fail(broken)
                    } else {
                        Action::MakeLink { target, path }
                    },
            ),
        },
        Call::List { fd, buffer, capacity } => listing_answer(
            order,
            held,
            facts.key,
            fd,
            buffer,
            capacity as nat,
            invalid,
        ),
        Call::Enter { path } => entered(binds, guest, facts.found, platform.errors.enotdir),
        Call::EnterDescriptor { fd } => match remembered_path(held, facts.key, fd) {
            None => Action::Continue,
            Some(path) => entered(binds, Ok(path), facts.found, platform.errors.enotdir),
        },
        Call::WorkingDirectory { buffer, size } => cwd_answer(
            facts.cwd,
            buffer,
            size as nat,
            platform.errors.erange,
        ),
        Call::Truncate { path, length } => acted(
            binds,
            guest,
            invalid,
            |path: Seq<u8>| Action::Truncate { path, length },
        ),
        Call::ChangeMode { dirfd, path, mode } => acted(
            binds,
            guest,
            invalid,
            |path: Seq<u8>| Action::ChangeMode { path, mode },
        ),
        Call::ChangeOwner { dirfd, path, owner, group, flags } => acted(
            binds,
            guest,
            invalid,
            |path: Seq<u8>| Action::ChangeOwner { path, owner, group, flags },
        ),
        Call::SetTimes { dirfd, path, times, flags } => acted(
            binds,
            guest,
            invalid,
            |path: Seq<u8>| Action::SetTimes { path, times, flags },
        ),
        Call::Execute { dirfd, path, flags } => executed(
            binds,
            facts.raw,
            guest,
            path,
            flags & platform.flags.at_symlink_nofollow != 0,
            platform.errors.enotsup,
            invalid,
        ),
        Call::Other => Action::Continue,
    }
}

/// What is remembered once the first action for a call is chosen.
pub open spec fn remembered(held: Held, call: Call, facts: Facts<Seq<u8>>) -> Held {
    match call {
        Call::List { fd, buffer, capacity } => if held.directories.contains_key(
            (facts.key, fd),
        ) {
            Held {
                directories: held.directories.insert(
                    (facts.key, fd),
                    advanced(held.directories[(facts.key, fd)], capacity as nat),
                ),
                ..held
            }
        } else {
            held
        },
        Call::Enter { path } => after_enter(held, facts.key, facts.guest, facts.found),
        Call::EnterDescriptor { fd } => match remembered_path(held, facts.key, fd) {
            None => held,
            Some(path) => after_enter(held, facts.key, Ok(path), facts.found),
        },
        _ => held,
    }
}

/// Chooses the first action for a call. A path whose rights are tested may not
/// resolve to one with a zero byte.
pub fn plan(
    state: &mut State,
    call: &Call,
    facts: &Facts<Vec<u8>>,
    order: ByteOrder,
    platform: &Platform,
) -> (action: Action<Vec<u8>>)
    requires
        call is Access ==> (got(facts.guest) matches Ok(path) ==> reserved_path(path) || !resolved(
            old(state)@.binds,
            path,
        ).contains(0)),
    ensures
        action@ == planned(old(state)@, *call, facts@, order, *platform),
        final(state)@ == remembered(old(state)@, *call, facts@),
{
    let guest = &facts.guest;
    let empty = match &facts.raw {
        Ok(raw) => raw.len() == 0,
        Err(_) => false,
    };
    match *call {
        Call::Open { dirfd, path, flags, mode } => dispatch::handle_open(
            state.bind_view(),
            guest,
            flags,
            mode,
            platform,
        ),
        Call::OpenHow { dirfd, path, how } => match facts.how {
            Err(error) => Action::Fail(error),
            Ok((flags, mode)) => dispatch::handle_open(
                state.bind_view(),
                guest,
                flags,
                mode,
                platform,
            ),
        },
        Call::Stat { dirfd, path, output, flags } => dispatch::handle_stat(
            state.bind_view(),
            empty,
            guest,
            flags,
            output,
            platform,
        ),
        Call::Statx { dirfd, path, flags, mask, output } => dispatch::handle_statx(
            state.bind_view(),
            empty,
            guest,
            flags,
            mask,
            output,
            platform,
        ),
        Call::Access { dirfd, path, rights, flags } => dispatch::handle_access(
            state.bind_view(),
            guest,
            rights,
            flags,
            platform,
        ),
        Call::MakeDirectory { dirfd, path, mode } => dispatch::handle_mkdir(
            state.bind_view(),
            guest,
            mode,
            platform,
        ),
        Call::Remove { dirfd, path, flags } => dispatch::handle_unlink(
            state.bind_view(),
            guest,
            flags,
            platform,
        ),
        Call::Rename { from_dirfd, from, to_dirfd, to, variant } => dispatch::handle_rename(
            state.bind_view(),
            guest,
            &facts.other,
            variant,
            platform,
        ),
        Call::ReadLink { dirfd, path, buffer, size } => dispatch::handle_readlink(
            state.bind_view(),
            guest,
            facts.pid,
            facts.key,
            &facts.cwd,
            buffer,
            size,
            platform,
        ),
        Call::MakeLink { target, dirfd, link } => dispatch::handle_symlink(
            state.bind_view(),
            &facts.target,
            guest,
            platform,
        ),
        Call::List { fd, buffer, capacity } => dispatch::handle_getdents(
            state,
            facts.key,
            fd,
            buffer,
            capacity,
            order,
            platform,
        ),
        Call::Enter { path } => dispatch::handle_chdir(
            state,
            facts.key,
            guest,
            facts.found,
            platform,
        ),
        Call::EnterDescriptor { fd } => dispatch::handle_fchdir(
            state,
            facts.key,
            fd,
            facts.found,
            platform,
        ),
        Call::WorkingDirectory { buffer, size } => dispatch::handle_getcwd(
            &facts.cwd,
            buffer,
            size,
            platform,
        ),
        Call::Truncate { path, length } => dispatch::handle_truncate(
            state.bind_view(),
            guest,
            length,
            platform,
        ),
        Call::ChangeMode { dirfd, path, mode } => dispatch::handle_chmod(
            state.bind_view(),
            guest,
            mode,
            platform,
        ),
        Call::ChangeOwner { dirfd, path, owner, group, flags } => dispatch::handle_chown(
            state.bind_view(),
            guest,
            owner,
            group,
            flags,
            platform,
        ),
        Call::SetTimes { dirfd, path, times, flags } => dispatch::handle_utimensat(
            state.bind_view(),
            guest,
            times,
            flags,
            platform,
        ),
        Call::Execute { dirfd, path, flags } => execute::handle(
            state.bind_view(),
            &facts.raw,
            guest,
            path,
            flags,
            platform,
        ),
        Call::Other => Action::Continue,
    }
}

/// The physical paths that an action is carried out on.
pub open spec fn touched(action: Action<Seq<u8>>) -> Seq<Seq<u8>> {
    match action {
        Action::Open { path, flags, mode, descriptor_flags } => seq![path],
        Action::Stat { path, flags, output } => seq![path],
        Action::Statx { path, flags, mask, output } => seq![path],
        Action::Access { path, rights, flags } => seq![path],
        Action::MakeDirectory { path, mode } => seq![path],
        Action::RemoveDirectory { path } => seq![path],
        Action::RemoveFile { path } => seq![path],
        Action::Rename { from, to } => seq![from, to],
        Action::ReadLink { path, buffer, size } => seq![path],
        Action::MakeLink { target, path } => seq![path],
        Action::Truncate { path, length } => seq![path],
        Action::ChangeMode { path, mode } => seq![path],
        Action::ChangeOwner { path, owner, group, flags } => seq![path],
        Action::SetTimes { path, times, flags } => seq![path],
        Action::Execute { path, raw, address } => seq![path],
        _ => seq![],
    }
}

/// Whatever the call, it is carried out on the physical paths of the guest paths
/// that it names and on nothing else: below a destination only its source is
/// touched, and the destination's own tree never is.
pub proof fn law_only_resolved_paths_are_touched(
    held: Held,
    call: Call,
    facts: Facts<Seq<u8>>,
    order: ByteOrder,
    platform: Platform,
)
    ensures
        ({
            let places = touched(planned(held, call, facts, order, platform));
            forall|i: int|
                0 <= i < places.len() ==> (facts.guest matches Ok(path) && #[trigger] places[i]
                    == resolved(held.binds, path)) || (facts.other matches Ok(path) && places[i]
                    == resolved(held.binds, path))
        }),
{
}

/// A call on a mapped path stays in the source of its mapping: every physical
/// path that it is carried out on begins with the source, whatever the
/// destination's own tree holds.
pub proof fn law_mapped_calls_stay_in_source(
    held: Held,
    call: Call,
    facts: Facts<Seq<u8>>,
    order: ByteOrder,
    platform: Platform,
    path: Seq<u8>,
)
    requires
        valid(held.binds),
        facts.guest == Ok::<Seq<u8>, i32>(path),
        projected(held.binds, path),
        !(call is Rename),
    ensures
        ({
            let binding = held.binds[selection(held.binds, names_of(path))->0];
            let places = touched(planned(held, call, facts, order, platform));
            forall|i: int|
                0 <= i < places.len() ==> begins_with(
                    components_of(#[trigger] places[i]),
                    components_of(binding.source),
                )
        }),
{
    let binding = held.binds[selection(held.binds, names_of(path))->0];
    let places = touched(planned(held, call, facts, order, platform));
    mapping::law_projection_replaces_destination(held.binds, path);
    let source = components_of(binding.source);
    assert forall|i: int| 0 <= i < places.len() implies begins_with(
        components_of(#[trigger] places[i]),
        source,
    ) by {
        assert(places[i] == resolved(held.binds, path));
        assert(components_of(places[i]).take(source.len() as int) =~= source);
    }
}

/// Only a listing and a change of the working directory change what is
/// remembered when the first action is chosen.
pub proof fn law_other_calls_leave_no_trace(held: Held, call: Call, facts: Facts<Seq<u8>>)
    requires
        !(call is List),
        !(call is Enter),
        !(call is EnterDescriptor),
    ensures
        remembered(held, call, facts) == held,
{
}

/// The flags that a call opens a file with.
pub open spec fn flags_of(call: Call, how: Result<(i32, u32), i32>) -> Option<i32> {
    match call {
        Call::Open { dirfd, path, flags, mode } => Some(flags),
        Call::OpenHow { dirfd, path, how: address } => match how {
            Ok((flags, mode)) => Some(flags),
            Err(_) => None,
        },
        _ => None,
    }
}

/// The flags that a call opens a file with, where it opens one.
pub fn opening_flags(call: &Call, how: Result<(i32, u32), i32>) -> (flags: Option<i32>)
    ensures
        flags == flags_of(*call, how),
{
    match *call {
        Call::Open { dirfd, path, flags, mode } => Some(flags),
        Call::OpenHow { dirfd, path, how: address } => match how {
            Ok((flags, mode)) => Some(flags),
            Err(_) => None,
        },
        _ => None,
    }
}

} // verus!
