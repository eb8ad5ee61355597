//! What the supervisor does for calls, from the registers of a call to its answer:
//! laws that relate reading a call, looking up its paths, acting and answering.

use crate::directory::Entry;
use crate::linux::calls::{decoded, listed, Call};
use crate::linux::dispatch::{after_open, Action};
use crate::linux::execute::alias_of;
use crate::linux::listing;
use crate::linux::listing::{packed, record_length};
use crate::linux::plan::{flags_of, needed, planned, remembered, Facts, PathArgument};
use crate::linux::platform::{told_apart, Platform};
use crate::linux::process::own_proc_cwd;
use crate::linux::progress::{continued, Outcome};
use crate::linux::state::Held;
use crate::mapping;
use crate::mapping::{projected, reserved_path, resolved, selection, valid, Binding};
use crate::number::ByteOrder;
use crate::path;
use crate::path::{begins_with, components_of, names_of, normalized, parts_of};
use vstd::prelude::*;

verus! {

/// The numbers of the list at their places.
proof fn lemma_places(platform: Platform)
    ensures
        ({
            let list = listed(platform);
            let old = platform.legacy;
            let new = platform.modern;
            &&& list.len() == 33
            &&& list[0] == old.open && list[1] == new.openat && list[2] == new.openat2
            &&& list[3] == new.newfstatat && list[4] == new.statx && list[5] == old.access
            &&& list[6] == new.faccessat && list[7] == new.faccessat2 && list[8] == old.mkdir
            &&& list[9] == new.mkdirat && list[10] == old.unlink && list[11] == new.unlinkat
            &&& list[12] == old.rmdir && list[13] == old.rename && list[14] == new.renameat
            &&& list[15] == new.renameat2 && list[16] == old.readlink && list[17] == new.readlinkat
            &&& list[18] == old.symlink && list[19] == new.symlinkat && list[20] == new.getdents64
            &&& list[21] == new.chdir && list[22] == new.fchdir && list[23] == new.getcwd
            &&& list[24] == new.truncate && list[25] == old.chmod && list[26] == new.fchmodat
            &&& list[27] == old.chown && list[28] == old.lchown && list[29] == new.fchownat
            &&& list[30] == new.utimensat && list[31] == new.execve && list[32] == new.execveat
        }),
{
}

/// A call that opens a file is read with its descriptor, its path, its flags and
/// its mode, each from its own register; the one without a descriptor starts from
/// the working directory.
pub proof fn law_opening_is_read_from_registers(platform: Platform, args: Seq<u64>)
    requires
        told_apart(listed(platform)),
    ensures
        platform.legacy.open >= 0 ==> decoded(platform, platform.legacy.open, args) == (
        Call::Open {
            dirfd: platform.flags.at_fdcwd,
            path: args[0],
            flags: args[1] as i32,
            mode: args[2] as u32,
        }),
        platform.modern.openat >= 0 ==> decoded(platform, platform.modern.openat, args) == (
        Call::Open {
            dirfd: args[0] as i32,
            path: args[1],
            flags: args[2] as i32,
            mode: args[3] as u32,
        }),
        platform.modern.openat2 >= 0 ==> decoded(platform, platform.modern.openat2, args) == (
        Call::OpenHow { dirfd: args[0] as i32, path: args[1], how: args[2] }),
{
    lemma_places(platform);
}

/// A look at a file and a test of rights are read with their descriptor, path,
/// flags and places for the result.
pub proof fn law_looks_are_read_from_registers(platform: Platform, args: Seq<u64>)
    requires
        told_apart(listed(platform)),
    ensures
        platform.modern.newfstatat >= 0 ==> decoded(platform, platform.modern.newfstatat, args) == (
        Call::Stat {
            dirfd: args[0] as i32,
            path: args[1],
            output: args[2],
            flags: args[3] as i32,
        }),
        platform.modern.statx >= 0 ==> decoded(platform, platform.modern.statx, args) == (
        Call::Statx {
            dirfd: args[0] as i32,
            path: args[1],
            flags: args[2] as i32,
            mask: args[3] as u32,
            output: args[4],
        }),
        platform.legacy.access >= 0 ==> decoded(platform, platform.legacy.access, args) == (
        Call::Access {
            dirfd: platform.flags.at_fdcwd,
            path: args[0],
            rights: args[1] as i32,
            flags: 0,
        }),
        forall|number: i64|
            number >= 0 && (number == platform.modern.faccessat || number
                == platform.modern.faccessat2) ==> #[trigger] decoded(platform, number, args) == (
            Call::Access {
                dirfd: args[0] as i32,
                path: args[1],
                rights: args[2] as i32,
                flags: args[3] as i32,
            }),
{
    lemma_places(platform);
}

/// Making and removing entries, and renaming them, are read with both ends in
/// their order; a removal of a directory is told from that of a file.
pub proof fn law_changes_of_entries_are_read_from_registers(platform: Platform, args: Seq<u64>)
    requires
        told_apart(listed(platform)),
    ensures
        ({
            let here = platform.flags.at_fdcwd;
            let old = platform.legacy;
            let new = platform.modern;
            &&& old.mkdir >= 0 ==> decoded(platform, old.mkdir, args) == (Call::MakeDirectory {
                dirfd: here,
                path: args[0],
                mode: args[1] as u32,
            })
            &&& new.mkdirat >= 0 ==> decoded(platform, new.mkdirat, args) == (Call::MakeDirectory {
                dirfd: args[0] as i32,
                path: args[1],
                mode: args[2] as u32,
            })
            &&& old.unlink >= 0 ==> decoded(platform, old.unlink, args) == (Call::Remove {
                dirfd: here,
                path: args[0],
                flags: 0,
            })
            &&& old.rmdir >= 0 ==> decoded(platform, old.rmdir, args) == (Call::Remove {
                dirfd: here,
                path: args[0],
                flags: platform.flags.at_removedir,
            })
            &&& new.unlinkat >= 0 ==> decoded(platform, new.unlinkat, args) == (Call::Remove {
                dirfd: args[0] as i32,
                path: args[1],
                flags: args[2] as i32,
            })
            &&& old.rename >= 0 ==> decoded(platform, old.rename, args) == (Call::Rename {
                from_dirfd: here,
                from: args[0],
                to_dirfd: here,
                to: args[1],
                variant: 0,
            })
            &&& new.renameat >= 0 ==> decoded(platform, new.renameat, args) == (Call::Rename {
                from_dirfd: args[0] as i32,
                from: args[1],
                to_dirfd: args[2] as i32,
                to: args[3],
                variant: 0,
            })
            &&& new.renameat2 >= 0 ==> decoded(platform, new.renameat2, args) == (Call::Rename {
                from_dirfd: args[0] as i32,
                from: args[1],
                to_dirfd: args[2] as i32,
                to: args[3],
                variant: args[4] as u32,
            })
        }),
{
    lemma_places(platform);
}

/// Links, listings and working directories are read with their paths, buffers and
/// sizes.
pub proof fn law_links_and_directories_are_read_from_registers(platform: Platform, args: Seq<u64>)
    requires
        told_apart(listed(platform)),
    ensures
        ({
            let here = platform.flags.at_fdcwd;
            let old = platform.legacy;
            let new = platform.modern;
            &&& old.readlink >= 0 ==> decoded(platform, old.readlink, args) == (Call::ReadLink {
                dirfd: here,
                path: args[0],
                buffer: args[1],
                size: args[2] as usize,
            })
            &&& new.readlinkat >= 0 ==> decoded(platform, new.readlinkat, args) == (
            Call::ReadLink {
                dirfd: args[0] as i32,
                path: args[1],
                buffer: args[2],
                size: args[3] as usize,
            })
            &&& old.symlink >= 0 ==> decoded(platform, old.symlink, args) == (Call::MakeLink {
                target: args[0],
                dirfd: here,
                link: args[1],
            })
            &&& new.symlinkat >= 0 ==> decoded(platform, new.symlinkat, args) == (Call::MakeLink {
                target: args[0],
                dirfd: args[1] as i32,
                link: args[2],
            })
            &&& new.getdents64 >= 0 ==> decoded(platform, new.getdents64, args) == (Call::List {
                fd: args[0] as i32,
                buffer: args[1],
                capacity: args[2] as usize,
            })
            &&& new.chdir >= 0 ==> decoded(platform, new.chdir, args) == (Call::Enter {
                path: args[0],
            })
            &&& new.fchdir >= 0 ==> decoded(platform, new.fchdir, args) == (Call::EnterDescriptor {
                fd: args[0] as i32,
            })
            &&& new.getcwd >= 0 ==> decoded(platform, new.getcwd, args) == (
            Call::WorkingDirectory { buffer: args[0], size: args[1] as usize })
        }),
{
    lemma_places(platform);
}

/// Changes of a file's length, mode, owner and times, and executions, are read
/// with their arguments; only the older call for a link itself does not follow
/// links.
pub proof fn law_changes_of_files_are_read_from_registers(platform: Platform, args: Seq<u64>)
    requires
        told_apart(listed(platform)),
    ensures
        ({
            let here = platform.flags.at_fdcwd;
            let old = platform.legacy;
            let new = platform.modern;
            &&& new.truncate >= 0 ==> decoded(platform, new.truncate, args) == (Call::Truncate {
                path: args[0],
                length: args[1] as i64,
            })
            &&& old.chmod >= 0 ==> decoded(platform, old.chmod, args) == (Call::ChangeMode {
                dirfd: here,
                path: args[0],
                mode: args[1] as u32,
            })
            &&& new.fchmodat >= 0 ==> decoded(platform, new.fchmodat, args) == (Call::ChangeMode {
                dirfd: args[0] as i32,
                path: args[1],
                mode: args[2] as u32,
            })
            &&& old.chown >= 0 ==> decoded(platform, old.chown, args) == (Call::ChangeOwner {
                dirfd: here,
                path: args[0],
                owner: args[1] as u32,
                group: args[2] as u32,
                flags: 0,
            })
            &&& old.lchown >= 0 ==> decoded(platform, old.lchown, args) == (Call::ChangeOwner {
                dirfd: here,
                path: args[0],
                owner: args[1] as u32,
                group: args[2] as u32,
                flags: platform.flags.at_symlink_nofollow,
            })
            &&& new.fchownat >= 0 ==> decoded(platform, new.fchownat, args) == (
            Call::ChangeOwner {
                dirfd: args[0] as i32,
                path: args[1],
                owner: args[2] as u32,
                group: args[3] as u32,
                flags: args[4] as i32,
            })
            &&& new.utimensat >= 0 ==> decoded(platform, new.utimensat, args) == (Call::SetTimes {
                dirfd: args[0] as i32,
                path: args[1],
                times: args[2],
                flags: args[3] as i32,
            })
            &&& new.execve >= 0 ==> decoded(platform, new.execve, args) == (Call::Execute {
                dirfd: here,
                path: args[0],
                flags: 0,
            })
            &&& new.execveat >= 0 ==> decoded(platform, new.execveat, args) == (Call::Execute {
                dirfd: args[0] as i32,
                path: args[1],
                flags: args[4] as i32,
            })
        }),
{
    lemma_places(platform);
}

/// `call` takes the path at `address` together with the directory descriptor
/// `dirfd`.
pub open spec fn names_below(call: Call, dirfd: i32, address: u64) -> bool {
    ||| (call matches Call::Open { dirfd: d, path, .. } && d == dirfd && path == address)
    ||| (call matches Call::OpenHow { dirfd: d, path, .. } && d == dirfd && path == address)
    ||| (call matches Call::Stat { dirfd: d, path, .. } && d == dirfd && path == address)
    ||| (call matches Call::Statx { dirfd: d, path, .. } && d == dirfd && path == address)
    ||| (call matches Call::Access { dirfd: d, path, .. } && d == dirfd && path == address)
    ||| (call matches Call::MakeDirectory { dirfd: d, path, .. } && d == dirfd && path == address)
    ||| (call matches Call::Remove { dirfd: d, path, .. } && d == dirfd && path == address)
    ||| (call matches Call::Rename { from_dirfd: d, from: path, variant, .. } && d == dirfd && path
        == address && variant == 0)
    ||| (call matches Call::ReadLink { dirfd: d, path, .. } && d == dirfd && path == address)
    ||| (call matches Call::MakeLink { dirfd: d, link: path, .. } && d == dirfd && path == address)
    ||| (call matches Call::ChangeMode { dirfd: d, path, .. } && d == dirfd && path == address)
    ||| (call matches Call::ChangeOwner { dirfd: d, path, .. } && d == dirfd && path == address)
    ||| (call matches Call::SetTimes { dirfd: d, path, .. } && d == dirfd && path == address)
    ||| (call matches Call::Execute { dirfd: d, path, .. } && d == dirfd && path == address)
}

/// A path is looked up where the call says: from the call's own descriptor and at
/// the call's own address, whatever they are. Only calls without a descriptor
/// start from the working directory.
pub proof fn law_paths_are_looked_up_below_their_descriptor(
    call: Call,
    here: i32,
    dirfd: i32,
    address: u64,
)
    ensures
        names_below(call, dirfd, address) ==> needed(call, here).path == Some(
            PathArgument { dirfd, address },
        ),
        (call matches Call::Enter { path } && path == address) ==> needed(call, here).path == Some(
            PathArgument { dirfd: here, address },
        ),
        (call matches Call::Truncate { path, .. } && path == address) ==> needed(call, here).path
            == Some(PathArgument { dirfd: here, address }),
        (call is List || call is EnterDescriptor || call is WorkingDirectory || call is Other)
            ==> needed(call, here).path is None,
{
}

/// The second path of a rename is looked up below its own descriptor, and no other
/// call has one; a rename with flags needs no path at all.
pub proof fn law_second_path_is_that_of_a_rename(call: Call, here: i32)
    ensures
        match call {
            Call::Rename { from_dirfd, from, to_dirfd, to, variant } => if variant == 0 {
                needed(call, here).other == Some(PathArgument { dirfd: to_dirfd, address: to })
            } else {
                needed(call, here).other is None && needed(call, here).path is None
            },
            _ => needed(call, here).other is None,
        },
{
}

/// What else is found out for a call: the text of a new link, the structure that
/// says how to open, the guest working directory for those who may be told it, the
/// directory behind a descriptor that is entered, and for whoever enters a
/// directory whether it is one. Nothing of it is looked up for other calls.
pub proof fn law_only_what_a_call_needs_is_found_out(call: Call, here: i32)
    ensures
        forall|text: u64|
            needed(call, here).target == Some(text) <==> (call matches Call::MakeLink {
                target,
                ..
            } && target == text),
        forall|address: u64|
            needed(call, here).how == Some(address) <==> (call matches Call::OpenHow { how, .. }
                && how == address),
        forall|descriptor: i32|
            needed(call, here).directory == Some(descriptor) <==> (
            call matches Call::EnterDescriptor { fd } && fd == descriptor),
        needed(call, here).cwd <==> call is ReadLink || call is WorkingDirectory,
        needed(call, here).found <==> call is Enter || call is EnterDescriptor,
{
}

/// The call of `facts` names the guest path `path`, which lies outside of `/dev`,
/// `/proc` and `/sys`, and whose physical path can be handed to the kernel.
pub open spec fn reaches(held: Held, facts: Facts<Seq<u8>>, path: Seq<u8>) -> bool {
    &&& facts.guest == Ok::<Seq<u8>, i32>(path)
    &&& !reserved_path(path)
    &&& !resolved(held.binds, path).contains(0)
}

/// A guest path that a bind projects lies outside of `/dev`, `/proc` and `/sys`,
/// and its physical path is the source of that bind followed by the names below the
/// destination: a call on it never reaches the destination's own tree.
pub proof fn law_mapped_paths_lead_to_their_source(binds: Seq<Binding>, path: Seq<u8>)
    requires
        valid(binds),
        path == normalized(path),
        projected(binds, path),
    ensures
        !reserved_path(path),
        exists|index: int| #[trigger]
            decides(binds, path, index) && components_of(resolved(binds, path)) == components_of(
                binds[index].source,
            ) + names_of(path).skip(binds[index].names.len() as int),
{
    mapping::law_projection_replaces_destination(binds, path);
    mapping::law_longest_destination_wins(binds, path);
    path::lemma_names_are_plain(path);
    mapping::lemma_plain_are_names(names_of(path));
    path::law_components_of_render(names_of(path));
    assert(components_of(path) == names_of(path));
    let index = selection(binds, names_of(path))->0;
    assert(decides(binds, path, index));
}

/// The bind at `index` has the longest destination at or above `path`.
pub open spec fn decides(binds: Seq<Binding>, path: Seq<u8>, index: int) -> bool {
    let names = names_of(path);
    &&& 0 <= index < binds.len()
    &&& begins_with(names, binds[index].names)
    &&& forall|j: int|
        0 <= j < binds.len() && begins_with(names, (#[trigger] binds[j]).names)
            ==> binds[j].names.len() <= binds[index].names.len()
}

/// A file is opened at the physical path of the guest path that the call names,
/// with the call's mode and all of its flags but close-on-exec, which the injected
/// descriptor gets instead.
pub proof fn law_files_are_opened_at_their_physical_path(
    held: Held,
    call: Call,
    facts: Facts<Seq<u8>>,
    order: ByteOrder,
    platform: Platform,
    path: Seq<u8>,
    flags: i32,
    mode: u32,
)
    requires
        reaches(held, facts, path),
        (call matches Call::Open { flags: f, mode: m, .. } && f == flags && m == mode) || (
        call is OpenHow && facts.how == Ok::<(i32, u32), i32>((flags, mode))),
    ensures
        planned(held, call, facts, order, platform) matches Action::Open {
            path: physical,
            flags: kept,
            mode: given,
            descriptor_flags,
        } && {
            let close = platform.flags.o_cloexec;
            &&& physical == resolved(held.binds, path)
            &&& given == mode
            &&& kept & close == 0
            &&& kept | (flags & close) == flags
            &&& descriptor_flags as i32 == flags & close
        },
{
    let close = platform.flags.o_cloexec;
    assert((flags & !close) & close == 0) by (bit_vector);
    assert((flags & !close) | (flags & close) == flags) by (bit_vector);
    assert(((flags & close) as u32) as i32 == flags & close) by (bit_vector);
}

/// A look at a file and a test of rights go to the physical path with the call's
/// own flags, rights, mask and place for the result. An empty path goes to the
/// kernel exactly where the call allows one.
pub proof fn law_looks_go_to_the_physical_path(
    held: Held,
    call: Call,
    facts: Facts<Seq<u8>>,
    order: ByteOrder,
    platform: Platform,
    path: Seq<u8>,
)
    requires
        reaches(held, facts, path),
    ensures
        ({
            let action = planned(held, call, facts, order, platform);
            let physical = resolved(held.binds, path);
            let empty = facts.raw == Ok::<Seq<u8>, i32>(seq![]);
            &&& call matches Call::Stat { dirfd, path: address, output, flags } ==> action == (
            if empty && flags & platform.flags.at_empty_path != 0 {
                Action::Continue
            } else {
                Action::Stat { path: physical, flags, output }
            })
            &&& call matches Call::Statx { dirfd, path: address, flags, mask, output } ==> action
                == (if empty && flags & platform.flags.at_empty_path != 0 {
                Action::Continue
            } else {
                Action::Statx { path: physical, flags, mask, output }
            })
            &&& call matches Call::Access { dirfd, path: address, rights, flags } ==> action == (
            Action::Access { path: physical, rights, flags })
        }),
{
    assert(facts.raw matches Ok(raw) && raw.len() == 0 ==> facts.raw->Ok_0 =~= seq![]);
}

/// Entries are made and removed at the physical path, with the mode and the text
/// that the call gives; a directory is removed as such exactly where the call asks
/// for that.
pub proof fn law_entries_are_made_and_removed_at_the_physical_path(
    held: Held,
    call: Call,
    facts: Facts<Seq<u8>>,
    order: ByteOrder,
    platform: Platform,
    path: Seq<u8>,
)
    requires
        facts.guest == Ok::<Seq<u8>, i32>(path),
        !resolved(held.binds, path).contains(0),
    ensures
        ({
            let action = planned(held, call, facts, order, platform);
            let physical = resolved(held.binds, path);
            &&& call matches Call::MakeDirectory { dirfd, path: address, mode } ==> action == (
            Action::MakeDirectory { path: physical, mode })
            &&& call matches Call::Remove { dirfd, path: address, flags } ==> action == (if flags
                & platform.flags.at_removedir != 0 {
                Action::RemoveDirectory { path: physical }
            } else {
                Action::RemoveFile { path: physical }
            })
            &&& forall|target: Seq<u8>|
                call is MakeLink && #[trigger] told_target(facts, target) && !target.contains(0)
                    ==> action == (Action::MakeLink { target, path: physical })
        }),
{
}

/// The text `target` was read for the call.
pub open spec fn told_target(facts: Facts<Seq<u8>>, target: Seq<u8>) -> bool {
    facts.target == Ok::<Seq<u8>, i32>(target)
}

/// A rename without flags runs from the physical path of the first path to the
/// physical path of the second, where one bind projects both or none projects
/// either.
pub proof fn law_renames_run_from_the_first_path_to_the_second(
    held: Held,
    call: Call,
    facts: Facts<Seq<u8>>,
    order: ByteOrder,
    platform: Platform,
    from: Seq<u8>,
    to: Seq<u8>,
)
    requires
        call matches Call::Rename { variant, .. } && variant == 0,
        facts.guest == Ok::<Seq<u8>, i32>(from),
        facts.other == Ok::<Seq<u8>, i32>(to),
        selection(held.binds, names_of(from)) == selection(held.binds, names_of(to)),
        !resolved(held.binds, from).contains(0),
        !resolved(held.binds, to).contains(0),
    ensures
        planned(held, call, facts, order, platform) == (Action::Rename {
            from: resolved(held.binds, from),
            to: resolved(held.binds, to),
        }),
{
}

/// What stands in the way of a rename: flags, then an unreadable path, the first
/// one before the second, then a border between binds.
pub proof fn law_renames_are_refused(
    held: Held,
    call: Call,
    facts: Facts<Seq<u8>>,
    order: ByteOrder,
    platform: Platform,
)
    requires
        call is Rename,
    ensures
        ({
            let action = planned(held, call, facts, order, platform);
            let plain = call->Rename_variant == 0;
            &&& !plain ==> action == Action::<Seq<u8>>::Fail(platform.errors.enotsup)
            &&& plain && facts.guest is Err ==> action == Action::<Seq<u8>>::Fail(
                facts.guest->Err_0,
            )
            &&& plain && facts.guest is Ok && facts.other is Err ==> action == Action::<
                Seq<u8>,
            >::Fail(facts.other->Err_0)
            &&& plain && facts.guest is Ok && facts.other is Ok && selection(
                held.binds,
                names_of(facts.guest->Ok_0),
            ) != selection(held.binds, names_of(facts.other->Ok_0)) ==> action == Action::<
                Seq<u8>,
            >::Fail(18)
        }),
{
}

/// Length, mode, owner and times are changed at the physical path, to exactly what
/// the call gives.
pub proof fn law_files_are_changed_at_the_physical_path(
    held: Held,
    call: Call,
    facts: Facts<Seq<u8>>,
    order: ByteOrder,
    platform: Platform,
    path: Seq<u8>,
)
    requires
        reaches(held, facts, path),
    ensures
        ({
            let action = planned(held, call, facts, order, platform);
            let physical = resolved(held.binds, path);
            &&& call matches Call::Truncate { path: address, length } ==> action == (
            Action::Truncate { path: physical, length })
            &&& call matches Call::ChangeMode { dirfd, path: address, mode } ==> action == (
            Action::ChangeMode { path: physical, mode })
            &&& call matches Call::ChangeOwner { dirfd, path: address, owner, group, flags }
                ==> action == (Action::ChangeOwner { path: physical, owner, group, flags })
            &&& call matches Call::SetTimes { dirfd, path: address, times, flags } ==> action == (
            Action::SetTimes { path: physical, times, flags })
        }),
{
}

/// A link is read at the physical path into the call's buffer, except that a
/// process which reads the link to its own working directory is told the guest
/// working directory, cut off at the size of its buffer.
pub proof fn law_links_are_read_at_the_physical_path(
    held: Held,
    call: Call,
    facts: Facts<Seq<u8>>,
    order: ByteOrder,
    platform: Platform,
    path: Seq<u8>,
)
    requires
        call is ReadLink,
        facts.guest == Ok::<Seq<u8>, i32>(path),
    ensures
        ({
            let action = planned(held, call, facts, order, platform);
            let own = own_proc_cwd(path, facts.pid, facts.key);
            let size = call->ReadLink_size;
            &&& facts.cwd matches Some(cwd) ==> (own ==> (action matches Action::Write {
                bytes,
                address,
                value,
            } && {
                &&& address == call->ReadLink_buffer
                &&& bytes.len() <= size && bytes.len() <= cwd.len()
                &&& bytes == cwd.take(bytes.len() as int)
                &&& bytes.len() == size || bytes == cwd
                &&& bytes.len() <= i64::MAX ==> value == bytes.len()
            }))
            &&& !(facts.cwd is Some && own) && reaches(held, facts, path) ==> action == (
            Action::ReadLink {
                path: resolved(held.binds, path),
                buffer: call->ReadLink_buffer,
                size,
            })
        }),
{
    if let Some(cwd) = facts.cwd {
        assert(cwd.take(cwd.len() as int) =~= cwd);
    }
}

/// A program is opened at its physical path where a bind projects it, and its path
/// argument and the address of that are carried along. The kernel is left to
/// execute it only where the argument is empty or no bind projects the path.
pub proof fn law_mapped_programs_are_opened(
    held: Held,
    call: Call,
    facts: Facts<Seq<u8>>,
    order: ByteOrder,
    platform: Platform,
    raw: Seq<u8>,
    path: Seq<u8>,
)
    requires
        call is Execute,
        facts.raw == Ok::<Seq<u8>, i32>(raw),
        facts.guest == Ok::<Seq<u8>, i32>(path),
    ensures
        ({
            let action = planned(held, call, facts, order, platform);
            let follow = call->Execute_flags & platform.flags.at_symlink_nofollow == 0;
            let mapped = raw.len() > 0 && projected(held.binds, path);
            let physical = resolved(held.binds, path);
            &&& mapped && follow && !physical.contains(0) ==> action == (Action::Execute {
                path: physical,
                raw,
                address: call->Execute_path,
            })
            &&& mapped && follow && physical.contains(0) ==> action == Action::<Seq<u8>>::Fail(
                platform.errors.einval,
            )
            &&& mapped && !follow ==> action == Action::<Seq<u8>>::Fail(platform.errors.enotsup)
            &&& action is Continue <==> !mapped
        }),
{
}

/// Calls whose path is read and looked up before anything else is done with it.
pub open spec fn names_one_path(call: Call) -> bool {
    call is Open || call is Stat || call is Statx || call is Access || call is MakeDirectory
        || call is Remove || call is ReadLink || call is Enter || call is Truncate
        || call is ChangeMode || call is ChangeOwner || call is SetTimes
}

/// A path that cannot be read or looked up fails the call with the same error;
/// so does what else could not be read for it. Only an empty path that the call
/// allows is left to the kernel instead.
pub proof fn law_unreadable_arguments_fail_the_call(
    held: Held,
    call: Call,
    facts: Facts<Seq<u8>>,
    order: ByteOrder,
    platform: Platform,
    error: i32,
)
    ensures
        ({
            let action = planned(held, call, facts, order, platform);
            let failed = Action::<Seq<u8>>::Fail(error);
            let broken = Err::<Seq<u8>, i32>(error);
            let empty = facts.raw matches Ok(raw) && raw.len() == 0;
            &&& names_one_path(call) && facts.guest == broken && !empty ==> action == failed
            &&& call is OpenHow && facts.how == Err::<(i32, u32), i32>(error) ==> action == failed
            &&& call is OpenHow && facts.how is Ok && facts.guest == broken ==> action == failed
            &&& call is MakeLink && facts.target == broken ==> action == failed
            &&& call is MakeLink && facts.target is Ok && facts.guest == broken ==> action == failed
            &&& call is Execute && facts.raw == broken ==> action == failed
            &&& call is Execute && facts.raw is Ok && !empty && facts.guest == broken ==> action
                == failed
        }),
{
}

/// Below `/dev`, `/proc` and `/sys` files are opened, looked at, changed and
/// entered by the kernel itself.
pub proof fn law_reserved_paths_are_left_to_the_kernel(
    held: Held,
    call: Call,
    facts: Facts<Seq<u8>>,
    order: ByteOrder,
    platform: Platform,
    path: Seq<u8>,
)
    requires
        facts.guest == Ok::<Seq<u8>, i32>(path),
        reserved_path(path),
        call is Open || (call is OpenHow && facts.how is Ok) || call is Stat || call is Statx
            || call is Access || (call is ReadLink && !(facts.cwd is Some && own_proc_cwd(
            path,
            facts.pid,
            facts.key,
        ))) || call is Truncate || call is ChangeMode || call is ChangeOwner || call is SetTimes || call is Enter,
    ensures
        planned(held, call, facts, order, platform) == Action::<Seq<u8>>::Continue,
{
}

/// A physical path with a zero byte is never handed to the kernel: the call fails
/// with the error that its kind has for that.
pub proof fn law_spoiled_paths_fail_the_call(
    held: Held,
    call: Call,
    facts: Facts<Seq<u8>>,
    order: ByteOrder,
    platform: Platform,
    path: Seq<u8>,
)
    requires
        facts.guest == Ok::<Seq<u8>, i32>(path),
        resolved(held.binds, path).contains(0),
        !reserved_path(path),
        facts.raw matches Ok(raw) ==> raw.len() > 0,
    ensures
        ({
            let action = planned(held, call, facts, order, platform);
            let invalid = Action::<Seq<u8>>::Fail(platform.errors.einval);
            let broken = Action::<Seq<u8>>::Fail(platform.errors.eio);
            &&& call is Open || call is Stat || call is Statx || call is Access || call is Truncate
                || call is ChangeMode || call is ChangeOwner || call is SetTimes || (call is OpenHow
                && facts.how is Ok) ==> action == invalid
            &&& call is MakeDirectory || call is Remove || (call is MakeLink && facts.target is Ok)
                || (call is ReadLink && !(facts.cwd is Some && own_proc_cwd(
                path,
                facts.pid,
                facts.key,
            ))) ==> action == broken
        }),
{
}

/// A link whose text or a rename one of whose ends holds a zero byte fails.
pub proof fn law_spoiled_second_arguments_fail_the_call(
    held: Held,
    call: Call,
    facts: Facts<Seq<u8>>,
    order: ByteOrder,
    platform: Platform,
)
    ensures
        ({
            let action = planned(held, call, facts, order, platform);
            let broken = Action::<Seq<u8>>::Fail(platform.errors.eio);
            &&& call is MakeLink && facts.guest is Ok && (facts.target matches Ok(target)
                && target.contains(0)) ==> action == broken
            &&& call is Rename && call->Rename_variant == 0 && facts.guest is Ok && facts.other is Ok
                && selection(held.binds, names_of(facts.guest->Ok_0)) == selection(
                held.binds,
                names_of(facts.other->Ok_0),
            ) && (resolved(held.binds, facts.guest->Ok_0).contains(0) || resolved(
                held.binds,
                facts.other->Ok_0,
            ).contains(0)) ==> action == broken
        }),
{
}

/// A call on a path that a bind projects is never left to the kernel, which would
/// find the destination's own tree: it is carried out on the physical path, or
/// refused.
pub proof fn law_mapped_calls_are_not_left_to_the_kernel(
    held: Held,
    call: Call,
    facts: Facts<Seq<u8>>,
    order: ByteOrder,
    platform: Platform,
    path: Seq<u8>,
)
    requires
        valid(held.binds),
        path == normalized(path),
        projected(held.binds, path),
        facts.guest == Ok::<Seq<u8>, i32>(path),
        facts.raw matches Ok(raw) && raw.len() > 0,
        call is OpenHow || call is MakeLink || call is Rename || call is Execute || (names_one_path(
            call,
        ) && !(call is Enter)),
    ensures
        !(planned(held, call, facts, order, platform) is Continue),
{
    law_mapped_paths_lead_to_their_source(held.binds, path);
}

/// The guest path of the directory that a call enters.
pub open spec fn enters(held: Held, call: Call, facts: Facts<Seq<u8>>, path: Seq<u8>) -> bool {
    ||| (call is Enter && facts.guest == Ok::<Seq<u8>, i32>(path))
    ||| (call matches Call::EnterDescriptor { fd } && held.directories.contains_key((facts.key, fd))
        && held.directories[(facts.key, fd)].path == path)
}

/// A directory that is there becomes the guest working directory of the process
/// that enters it, and of no other, and nothing else changes. The kernel follows
/// only where the physical path is the guest path itself.
pub proof fn law_entered_directory_is_the_working_directory(
    held: Held,
    call: Call,
    facts: Facts<Seq<u8>>,
    order: ByteOrder,
    platform: Platform,
    path: Seq<u8>,
)
    requires
        enters(held, call, facts, path),
        reserved_path(path) || facts.found == Ok::<bool, i32>(true),
    ensures
        ({
            let after = remembered(held, call, facts);
            let action = planned(held, call, facts, order, platform);
            let follows = reserved_path(path) || parts_of(resolved(held.binds, path)) == parts_of(
                path,
            );
            &&& after.cwds == held.cwds.insert(facts.key, path)
            &&& after.directories == held.directories
            &&& after.binds == held.binds
            &&& follows ==> action == Action::<Seq<u8>>::Continue
            &&& !follows ==> action == Action::<Seq<u8>>::Value(0)
        }),
{
}

/// What is no directory, or cannot be looked at, is not entered: the call fails and
/// everything stays as it was.
pub proof fn law_other_things_are_not_entered(
    held: Held,
    call: Call,
    facts: Facts<Seq<u8>>,
    order: ByteOrder,
    platform: Platform,
    path: Seq<u8>,
)
    requires
        enters(held, call, facts, path),
        !reserved_path(path),
        facts.found != Ok::<bool, i32>(true),
    ensures
        remembered(held, call, facts) == held,
        planned(held, call, facts, order, platform) == Action::<Seq<u8>>::Fail(
            match facts.found {
                Ok(_) => platform.errors.enotdir,
                Err(error) => error,
            },
        ),
{
}

/// A descriptor that no directory is remembered for is entered and listed by the
/// kernel, and so is every call that is not understood left to it.
pub proof fn law_unknown_descriptors_are_left_to_the_kernel(
    held: Held,
    call: Call,
    facts: Facts<Seq<u8>>,
    order: ByteOrder,
    platform: Platform,
)
    requires
        (call matches Call::EnterDescriptor { fd } && !held.directories.contains_key(
            (facts.key, fd),
        )) || (call matches Call::List { fd, .. } && !held.directories.contains_key(
            (facts.key, fd),
        )) || call is Other,
    ensures
        planned(held, call, facts, order, platform) == Action::<Seq<u8>>::Continue,
        remembered(held, call, facts) == held,
{
}

/// A process that asks for its working directory is told the guest working
/// directory, closed by a zero, and how many bytes that takes; a buffer that is too
/// small is refused, and the kernel answers where no guest directory is known.
pub proof fn law_working_directory_is_told_whole(
    held: Held,
    call: Call,
    facts: Facts<Seq<u8>>,
    order: ByteOrder,
    platform: Platform,
)
    requires
        call is WorkingDirectory,
    ensures
        ({
            let action = planned(held, call, facts, order, platform);
            let size = call->WorkingDirectory_size;
            match facts.cwd {
                None => action == Action::<Seq<u8>>::Continue,
                Some(cwd) => if cwd.len() < size {
                    action matches Action::Write { bytes, address, value } && {
                        &&& bytes.len() == cwd.len() + 1
                        &&& bytes.take(cwd.len() as int) == cwd
                        &&& bytes.last() == 0
                        &&& address == call->WorkingDirectory_buffer
                        &&& bytes.len() <= i64::MAX ==> value == bytes.len()
                    }
                } else {
                    action == Action::<Seq<u8>>::Fail(platform.errors.erange)
                },
            }
        }),
{
    if let Some(cwd) = facts.cwd {
        assert(cwd.push(0).take(cwd.len() as int) =~= cwd);
    }
}

/// A listing goes on where it stopped: the records that are written are those of
/// the entries that the cursor moves past, all of them and in order, as many as the
/// buffer holds, and their length is the answer. Nothing but this cursor changes.
/// The call fails only where an entry is left whose record does not fit.
pub proof fn law_listing_goes_on_where_it_stopped(
    held: Held,
    call: Call,
    facts: Facts<Seq<u8>>,
    order: ByteOrder,
    platform: Platform,
)
    requires
        call is List,
        held.directories.contains_key((facts.key, call->List_fd)),
        held.directories[(facts.key, call->List_fd)].cursor <= held.directories[(
            facts.key,
            call->List_fd,
        )].entries.len(),
    ensures
        ({
            let place = (facts.key, call->List_fd);
            let capacity = call->List_capacity as nat;
            let before = held.directories[place];
            let after = remembered(held, call, facts);
            let moved = after.directories[place];
            let count = (moved.cursor - before.cursor) as nat;
            let left = moved.cursor < moved.entries.len();
            let action = planned(held, call, facts, order, platform);
            &&& after.directories == held.directories.insert(place, moved)
            &&& after.cwds == held.cwds && after.binds == held.binds
            &&& moved.path == before.path && moved.entries == before.entries
            &&& before.cursor <= moved.cursor <= moved.entries.len()
            &&& count == 0 && left ==> action == Action::<Seq<u8>>::Fail(platform.errors.einval)
                && record_length(before.entries[before.cursor as int].name) > capacity
            &&& !(count == 0 && left) ==> (action matches Action::Write {
                bytes,
                address,
                value,
            } && {
                &&& bytes == packed(order, before.entries, before.cursor, count)
                &&& bytes.len() <= capacity
                &&& left ==> bytes.len() + record_length(moved.entries[moved.cursor as int].name)
                    > capacity
                &&& address == call->List_buffer
                &&& bytes.len() <= i64::MAX ==> value == bytes.len()
            })
        }),
{
    let before = held.directories[(facts.key, call->List_fd)];
    listing::law_listing_fills_buffer(
        order,
        before.entries,
        before.cursor,
        call->List_capacity as nat,
    );
}

/// A directory that was opened is remembered for the process and the descriptor
/// that it got, with its guest path and all its entries, none of them delivered;
/// what is no directory, or cannot be listed, leaves no trace.
pub proof fn law_opened_directories_are_remembered(
    held: Held,
    key: u32,
    fd: i32,
    path: Seq<u8>,
    asked: bool,
    is_directory: bool,
    entries: Option<Seq<Entry>>,
)
    ensures
        ({
            let after = after_open(held, key, fd, path, asked, is_directory, entries);
            &&& after.cwds == held.cwds && after.binds == held.binds
            &&& entries is Some && (asked || is_directory) ==> after.directories.contains_key(
                (key, fd),
            ) && after.directories[(key, fd)].path == path && after.directories[(key, fd)].entries
                == entries->0 && after.directories[(key, fd)].cursor == 0
            &&& entries is None || !(asked || is_directory) ==> after == held
            &&& forall|place: (u32, i32)|
                place != (key, fd) ==> (#[trigger] after.directories.contains_key(place)
                    <==> held.directories.contains_key(place)) && (held.directories.contains_key(
                    place,
                ) ==> after.directories[place] == held.directories[place])
        }),
{
}

/// Bytes that have been written into the memory of the process answer the call with
/// exactly the value that goes with them.
pub proof fn law_written_bytes_answer_with_their_value(
    id: u64,
    bytes: Seq<u8>,
    address: u64,
    value: i64,
    result: i32,
    platform: Platform,
)
    ensures
        continued(
            id,
            Action::Write { bytes, address, value },
            Outcome::Done(result),
            platform,
        ) == Action::<Seq<u8>>::Value(value),
{
}

/// What is known of a file is written where the call wants it, whole and unchanged,
/// and the call then succeeds with 0.
pub proof fn law_looks_are_answered(
    id: u64,
    path: Seq<u8>,
    flags: i32,
    mask: u32,
    output: u64,
    known: Seq<u8>,
    platform: Platform,
)
    ensures
        ({
            let written = Action::Write { bytes: known, address: output, value: 0 };
            &&& continued(
                id,
                Action::Stat { path, flags, output },
                Outcome::Bytes(known),
                platform,
            ) == written
            &&& continued(
                id,
                Action::Statx { path, flags, mask, output },
                Outcome::Bytes(known),
                platform,
            ) == written
        }),
{
}

/// The target of a link is written into the buffer as far as it fits, and the call
/// is answered with the number of bytes written.
pub proof fn law_link_targets_are_answered(
    id: u64,
    path: Seq<u8>,
    buffer: u64,
    size: usize,
    target: Seq<u8>,
    platform: Platform,
)
    ensures
        continued(
            id,
            Action::ReadLink { path, buffer, size },
            Outcome::Bytes(target),
            platform,
        ) matches Action::Write { bytes, address, value } && {
            &&& address == buffer
            &&& bytes.len() <= size && bytes.len() <= target.len()
            &&& bytes == target.take(bytes.len() as int)
            &&& bytes.len() == size || bytes == target
            &&& bytes.len() <= i64::MAX ==> value == bytes.len()
        },
{
    assert(target.take(target.len() as int) =~= target);
}

/// A file that was opened is injected into the process that waits, under any free
/// descriptor and with the flags of the call; the injection itself answers the call
/// with the descriptor.
pub proof fn law_opened_files_are_injected(
    id: u64,
    path: Seq<u8>,
    flags: i32,
    mode: u32,
    descriptor_flags: u32,
    opened: i32,
    injected: i32,
    platform: Platform,
)
    requires
        opened >= 0,
    ensures
        ({
            let next = continued(
                id,
                Action::Open { path, flags, mode, descriptor_flags },
                Outcome::Descriptor(opened),
                platform,
            );
            &&& next matches Action::Inject { injection } && {
                &&& injection.id == id
                &&& injection.srcfd == opened
                &&& injection.newfd == 0
                &&& injection.newfd_flags == descriptor_flags
                &&& injection.flags == 2
            }
            &&& continued(id, next, Outcome::Descriptor(injected), platform) == (Action::<
                Seq<u8>,
            >::Answered { fd: injected })
        }),
{
}

/// A program that was opened is injected without an answer to the call, to be
/// closed when the program starts; its path argument is then overwritten with the
/// path of that descriptor, closed by a zero, where it has room for it, and the
/// kernel goes on with the call. Without room the call fails.
pub proof fn law_opened_programs_are_injected(
    id: u64,
    path: Seq<u8>,
    raw: Seq<u8>,
    address: u64,
    opened: i32,
    injected: i32,
    platform: Platform,
)
    requires
        opened >= 0,
    ensures
        ({
            let next = continued(
                id,
                Action::Execute { path, raw, address },
                Outcome::Descriptor(opened),
                platform,
            );
            let last = continued(id, next, Outcome::Descriptor(injected), platform);
            &&& next matches Action::InjectProgram { injection, raw: kept, address: same } && {
                &&& injection.id == id
                &&& injection.srcfd == opened
                &&& injection.newfd == 0
                &&& injection.newfd_flags == platform.flags.o_cloexec as u32
                &&& injection.flags == 0
                &&& kept == raw && same == address
            }
            &&& alias_of(injected).len() <= raw.len() ==> last == (Action::Overwrite {
                bytes: alias_of(injected).push(0),
                address,
            }) && continued(id, last, Outcome::Done(0), platform) == Action::<Seq<u8>>::Continue
            &&& alias_of(injected).len() > raw.len() ==> last == Action::<Seq<u8>>::Fail(
                platform.errors.enametoolong,
            )
        }),
{
}

/// What was done to a file or an entry answers the call: with the result of the
/// system call where a length, a mode, an owner or times were set, and with 0
/// elsewhere.
pub proof fn law_done_actions_are_answered(
    id: u64,
    action: Action<Seq<u8>>,
    result: i32,
    platform: Platform,
)
    ensures
        ({
            let next = continued(id, action, Outcome::Done(result), platform);
            &&& action is Truncate || action is ChangeMode || action is ChangeOwner
                || action is SetTimes ==> next == Action::<Seq<u8>>::Value(result as i64)
            &&& action is Access || action is MakeDirectory || action is RemoveDirectory
                || action is RemoveFile || action is Rename || action is MakeLink ==> next
                == Action::<Seq<u8>>::Value(0)
            &&& action is Overwrite ==> next == Action::<Seq<u8>>::Continue
        }),
{
}

/// The flags that a file is opened with are those of the call, or of the structure
/// that it gives; no other call opens a file.
pub proof fn law_opening_flags_are_those_of_the_call(
    call: Call,
    how: Result<(i32, u32), i32>,
)
    ensures
        call matches Call::Open { flags, .. } ==> flags_of(call, how) == Some(flags),
        call is OpenHow ==> (how matches Ok(given) ==> flags_of(call, how) == Some(given.0)),
        call is OpenHow && how is Err ==> flags_of(call, how) is None,
        !(call is Open) && !(call is OpenHow) ==> flags_of(call, how) is None,
{
}

} // verus!
