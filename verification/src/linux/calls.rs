//! Intercepted system calls: what a call number and its six arguments ask for.

use crate::linux::platform::{older_calls, portable, shared_calls, told_apart, Platform};
use vstd::prelude::*;

verus! {

/// What an intercepted system call asks for. Paths and buffers are addresses in
/// the memory of the process that made the call.
#[derive(Clone, Copy, PartialEq, Eq, Structural, Debug)]
pub enum Call {
    Open { dirfd: i32, path: u64, flags: i32, mode: u32 },
    OpenHow { dirfd: i32, path: u64, how: u64 },
    Stat { dirfd: i32, path: u64, output: u64, flags: i32 },
    Statx { dirfd: i32, path: u64, flags: i32, mask: u32, output: u64 },
    Access { dirfd: i32, path: u64, rights: i32, flags: i32 },
    MakeDirectory { dirfd: i32, path: u64, mode: u32 },
    Remove { dirfd: i32, path: u64, flags: i32 },
    Rename { from_dirfd: i32, from: u64, to_dirfd: i32, to: u64, variant: u32 },
    ReadLink { dirfd: i32, path: u64, buffer: u64, size: usize },
    MakeLink { target: u64, dirfd: i32, link: u64 },
    List { fd: i32, buffer: u64, capacity: usize },
    Enter { path: u64 },
    EnterDescriptor { fd: i32 },
    WorkingDirectory { buffer: u64, size: usize },
    Truncate { path: u64, length: i64 },
    ChangeMode { dirfd: i32, path: u64, mode: u32 },
    ChangeOwner { dirfd: i32, path: u64, owner: u32, group: u32, flags: i32 },
    SetTimes { dirfd: i32, path: u64, times: u64, flags: i32 },
    Execute { dirfd: i32, path: u64, flags: i32 },
    Other,
}

/// What the call `number` with arguments `args` asks for.
pub open spec fn decoded(platform: Platform, number: i64, args: Seq<u64>) -> Call {
    let old = platform.legacy;
    let new = platform.modern;
    let here = platform.flags.at_fdcwd;
    if number == old.open {
        Call::Open { dirfd: here, path: args[0], flags: args[1] as i32, mode: args[2] as u32 }
    } else if number == new.openat {
        Call::Open {
            dirfd: args[0] as i32,
            path: args[1],
            flags: args[2] as i32,
            mode: args[3] as u32,
        }
    } else if number == new.openat2 {
        Call::OpenHow { dirfd: args[0] as i32, path: args[1], how: args[2] }
    } else if number == new.newfstatat {
        Call::Stat {
            dirfd: args[0] as i32,
            path: args[1],
            output: args[2],
            flags: args[3] as i32,
        }
    } else if number == new.statx {
        Call::Statx {
            dirfd: args[0] as i32,
            path: args[1],
            flags: args[2] as i32,
            mask: args[3] as u32,
            output: args[4],
        }
    } else if number == old.access {
        Call::Access { dirfd: here, path: args[0], rights: args[1] as i32, flags: 0 }
    } else if number == new.faccessat || number == new.faccessat2 {
        Call::Access {
            dirfd: args[0] as i32,
            path: args[1],
            rights: args[2] as i32,
            flags: args[3] as i32,
        }
    } else if number == old.mkdir {
        Call::MakeDirectory { dirfd: here, path: args[0], mode: args[1] as u32 }
    } else if number == new.mkdirat {
        Call::MakeDirectory { dirfd: args[0] as i32, path: args[1], mode: args[2] as u32 }
    } else if number == old.unlink {
        Call::Remove { dirfd: here, path: args[0], flags: 0 }
    } else if number == old.rmdir {
        Call::Remove { dirfd: here, path: args[0], flags: platform.flags.at_removedir }
    } else if number == new.unlinkat {
        Call::Remove { dirfd: args[0] as i32, path: args[1], flags: args[2] as i32 }
    } else if number == old.rename {
        Call::Rename { from_dirfd: here, from: args[0], to_dirfd: here, to: args[1], variant: 0 }
    } else if number == new.renameat2 {
        Call::Rename {
            from_dirfd: args[0] as i32,
            from: args[1],
            to_dirfd: args[2] as i32,
            to: args[3],
            variant: args[4] as u32,
        }
    } else if number == new.renameat {
        Call::Rename {
            from_dirfd: args[0] as i32,
            from: args[1],
            to_dirfd: args[2] as i32,
            to: args[3],
            variant: 0,
        }
    } else if number == old.readlink {
        Call::ReadLink { dirfd: here, path: args[0], buffer: args[1], size: args[2] as usize }
    } else if number == new.readlinkat {
        Call::ReadLink {
            dirfd: args[0] as i32,
            path: args[1],
            buffer: args[2],
            size: args[3] as usize,
        }
    } else if number == old.symlink {
        Call::MakeLink { target: args[0], dirfd: here, link: args[1] }
    } else if number == new.symlinkat {
        Call::MakeLink { target: args[0], dirfd: args[1] as i32, link: args[2] }
    } else if number == new.getdents64 {
        Call::List { fd: args[0] as i32, buffer: args[1], capacity: args[2] as usize }
    } else if number == new.chdir {
        Call::Enter { path: args[0] }
    } else if number == new.fchdir {
        Call::EnterDescriptor { fd: args[0] as i32 }
    } else if number == new.getcwd {
        Call::WorkingDirectory { buffer: args[0], size: args[1] as usize }
    } else if number == new.truncate {
        Call::Truncate { path: args[0], length: args[1] as i64 }
    } else if number == old.chmod {
        Call::ChangeMode { dirfd: here, path: args[0], mode: args[1] as u32 }
    } else if number == new.fchmodat {
        Call::ChangeMode { dirfd: args[0] as i32, path: args[1], mode: args[2] as u32 }
    } else if number == new.fchownat {
        Call::ChangeOwner {
            dirfd: args[0] as i32,
            path: args[1],
            owner: args[2] as u32,
            group: args[3] as u32,
            flags: args[4] as i32,
        }
    } else if number == old.lchown {
        Call::ChangeOwner {
            dirfd: here,
            path: args[0],
            owner: args[1] as u32,
            group: args[2] as u32,
            flags: platform.flags.at_symlink_nofollow,
        }
    } else if number == old.chown {
        Call::ChangeOwner {
            dirfd: here,
            path: args[0],
            owner: args[1] as u32,
            group: args[2] as u32,
            flags: 0,
        }
    } else if number == new.utimensat {
        Call::SetTimes {
            dirfd: args[0] as i32,
            path: args[1],
            times: args[2],
            flags: args[3] as i32,
        }
    } else if number == new.execve {
        Call::Execute { dirfd: here, path: args[0], flags: 0 }
    } else if number == new.execveat {
        Call::Execute { dirfd: args[0] as i32, path: args[1], flags: args[4] as i32 }
    } else {
        Call::Other
    }
}

/// Reads what the call `number` with arguments `args` asks for.
pub fn handle(platform: &Platform, number: i64, args: &[u64; 6]) -> (call: Call)
    ensures
        call == decoded(*platform, number, args@),
{
    let old = platform.legacy;
    let new = platform.modern;
    let here = platform.flags.at_fdcwd;
    if number == old.open {
        Call::Open { dirfd: here, path: args[0], flags: args[1] as i32, mode: args[2] as u32 }
    } else if number == new.openat {
        Call::Open {
            dirfd: args[0] as i32,
            path: args[1],
            flags: args[2] as i32,
            mode: args[3] as u32,
        }
    } else if number == new.openat2 {
        Call::OpenHow { dirfd: args[0] as i32, path: args[1], how: args[2] }
    } else if number == new.newfstatat {
        Call::Stat {
            dirfd: args[0] as i32,
            path: args[1],
            output: args[2],
            flags: args[3] as i32,
        }
    } else if number == new.statx {
        Call::Statx {
            dirfd: args[0] as i32,
            path: args[1],
            flags: args[2] as i32,
            mask: args[3] as u32,
            output: args[4],
        }
    } else if number == old.access {
        Call::Access { dirfd: here, path: args[0], rights: args[1] as i32, flags: 0 }
    } else if number == new.faccessat || number == new.faccessat2 {
        Call::Access {
            dirfd: args[0] as i32,
            path: args[1],
            rights: args[2] as i32,
            flags: args[3] as i32,
        }
    } else if number == old.mkdir {
        Call::MakeDirectory { dirfd: here, path: args[0], mode: args[1] as u32 }
    } else if number == new.mkdirat {
        Call::MakeDirectory { dirfd: args[0] as i32, path: args[1], mode: args[2] as u32 }
    } else if number == old.unlink {
        Call::Remove { dirfd: here, path: args[0], flags: 0 }
    } else if number == old.rmdir {
        Call::Remove { dirfd: here, path: args[0], flags: platform.flags.at_removedir }
    } else if number == new.unlinkat {
        Call::Remove { dirfd: args[0] as i32, path: args[1], flags: args[2] as i32 }
    } else if number == old.rename {
        Call::Rename { from_dirfd: here, from: args[0], to_dirfd: here, to: args[1], variant: 0 }
    } else if number == new.renameat2 {
        Call::Rename {
            from_dirfd: args[0] as i32,
            from: args[1],
            to_dirfd: args[2] as i32,
            to: args[3],
            variant: args[4] as u32,
        }
    } else if number == new.renameat {
        Call::Rename {
            from_dirfd: args[0] as i32,
            from: args[1],
            to_dirfd: args[2] as i32,
            to: args[3],
            variant: 0,
        }
    } else if number == old.readlink {
        Call::ReadLink { dirfd: here, path: args[0], buffer: args[1], size: args[2] as usize }
    } else if number == new.readlinkat {
        Call::ReadLink {
            dirfd: args[0] as i32,
            path: args[1],
            buffer: args[2],
            size: args[3] as usize,
        }
    } else if number == old.symlink {
        Call::MakeLink { target: args[0], dirfd: here, link: args[1] }
    } else if number == new.symlinkat {
        Call::MakeLink { target: args[0], dirfd: args[1] as i32, link: args[2] }
    } else if number == new.getdents64 {
        Call::List { fd: args[0] as i32, buffer: args[1], capacity: args[2] as usize }
    } else if number == new.chdir {
        Call::Enter { path: args[0] }
    } else if number == new.fchdir {
        Call::EnterDescriptor { fd: args[0] as i32 }
    } else if number == new.getcwd {
        Call::WorkingDirectory { buffer: args[0], size: args[1] as usize }
    } else if number == new.truncate {
        Call::Truncate { path: args[0], length: args[1] as i64 }
    } else if number == old.chmod {
        Call::ChangeMode { dirfd: here, path: args[0], mode: args[1] as u32 }
    } else if number == new.fchmodat {
        Call::ChangeMode { dirfd: args[0] as i32, path: args[1], mode: args[2] as u32 }
    } else if number == new.fchownat {
        Call::ChangeOwner {
            dirfd: args[0] as i32,
            path: args[1],
            owner: args[2] as u32,
            group: args[3] as u32,
            flags: args[4] as i32,
        }
    } else if number == old.lchown {
        Call::ChangeOwner {
            dirfd: here,
            path: args[0],
            owner: args[1] as u32,
            group: args[2] as u32,
            flags: platform.flags.at_symlink_nofollow,
        }
    } else if number == old.chown {
        Call::ChangeOwner {
            dirfd: here,
            path: args[0],
            owner: args[1] as u32,
            group: args[2] as u32,
            flags: 0,
        }
    } else if number == new.utimensat {
        Call::SetTimes {
            dirfd: args[0] as i32,
            path: args[1],
            times: args[2],
            flags: args[3] as i32,
        }
    } else if number == new.execve {
        Call::Execute { dirfd: here, path: args[0], flags: 0 }
    } else if number == new.execveat {
        Call::Execute { dirfd: args[0] as i32, path: args[1], flags: args[4] as i32 }
    } else {
        Call::Other
    }
}

/// The calls that are intercepted, those that a machine lacks left out.
pub open spec fn listed(platform: Platform) -> Seq<i64> {
    let old = platform.legacy;
    let new = platform.modern;
    seq![
        old.open, new.openat, new.openat2, new.newfstatat, new.statx, old.access, new.faccessat,
        new.faccessat2, old.mkdir, new.mkdirat, old.unlink, new.unlinkat, old.rmdir, old.rename,
        new.renameat, new.renameat2, old.readlink, new.readlinkat, old.symlink, new.symlinkat,
        new.getdents64, new.chdir, new.fchdir, new.getcwd, new.truncate, old.chmod, new.fchmodat,
        old.chown, old.lchown, new.fchownat, new.utimensat, new.execve, new.execveat,
    ]
}

/// The numbers of `list` that a call can have.
pub open spec fn possible(list: Seq<i64>) -> Seq<i64> {
    list.filter(|number: i64| number >= 0)
}

/// The calls that are intercepted, in the order of the filter: every number is
/// one that a call can have, and none occurs twice where the machine tells its
/// calls apart.
pub fn intercepted_syscalls(platform: &Platform) -> (numbers: Vec<i64>)
    ensures
        numbers@ == possible(listed(*platform)),
        numbers@.len() <= 33,
        forall|i: int| 0 <= i < numbers@.len() ==> #[trigger] numbers@[i] >= 0,
        told_apart(listed(*platform)) ==> numbers@.no_duplicates(),
        portable(*platform) ==> numbers@.contains(platform.modern.execve) && numbers@.contains(
            platform.modern.execveat,
        ),
{
    let old = platform.legacy;
    let new = platform.modern;
    let all: [i64; 33] = [
        old.open, new.openat, new.openat2, new.newfstatat, new.statx, old.access, new.faccessat,
        new.faccessat2, old.mkdir, new.mkdirat, old.unlink, new.unlinkat, old.rmdir, old.rename,
        new.renameat, new.renameat2, old.readlink, new.readlinkat, old.symlink, new.symlinkat,
        new.getdents64, new.chdir, new.fchdir, new.getcwd, new.truncate, old.chmod, new.fchmodat,
        old.chown, old.lchown, new.fchownat, new.utimensat, new.execve, new.execveat,
    ];
    let ghost list = listed(*platform);
    assert(all@ =~= list);
    let mut numbers: Vec<i64> = Vec::new();
    let mut i: usize = 0;
    assert(list.take(0) =~= seq![]);
    reveal(Seq::filter);
    while i < 33
        invariant
            i <= 33,
            all@ == list,
            list.len() == 33,
            numbers@ == possible(list.take(i as int)),
            numbers@.len() <= i,
        decreases 33 - i,
    {
        proof {
            reveal(Seq::filter);
            assert(list.take(i + 1).drop_last() =~= list.take(i as int));
        }
        if all[i] >= 0 {
            numbers.push(all[i]);
        }
        i += 1;
    }
    assert(list.take(33) =~= list);
    proof {
        lemma_kept(list);
        if portable(*platform) {
            law_shared_calls_are_intercepted(*platform);
        }
    }
    numbers
}

proof fn lemma_kept(list: Seq<i64>)
    ensures
        forall|i: int| 0 <= i < possible(list).len() ==> #[trigger] possible(list)[i] >= 0,
        told_apart(list) ==> possible(list).no_duplicates(),
    decreases list.len(),
{
    reveal(Seq::filter);
    if list.len() > 0 {
        let front = list.drop_last();
        let last = list.last();
        lemma_kept(front);
        if last >= 0 {
            lemma_possible(front, last);
            assert(possible(list) =~= possible(front).push(last));
            if told_apart(list) {
                assert(told_apart(front));
                assert(!front.contains(last)) by {
                    if front.contains(last) {
                        let k = choose|k: int| 0 <= k < front.len() && front[k] == last;
                        assert(list[k] == list[list.len() - 1]);
                    }
                }
                assert forall|k: int| 0 <= k < possible(front).len() implies #[trigger] possible(
                    front,
                )[k] != last by {
                    assert(possible(front).contains(possible(front)[k]));
                }
            }
        } else {
            assert(possible(list) =~= possible(front));
            if told_apart(list) {
                assert(told_apart(front));
            }
        }
    }
}

proof fn lemma_possible(list: Seq<i64>, number: i64)
    requires
        number >= 0,
    ensures
        possible(list).contains(number) <==> list.contains(number),
    decreases list.len(),
{
    reveal(Seq::filter);
    if list.len() > 0 {
        let front = list.drop_last();
        lemma_possible(front, number);
        assert(list =~= front.push(list.last()));
        assert(list.contains(number) <==> front.contains(number) || list.last() == number) by {
            if front.contains(number) {
                let k = choose|k: int| 0 <= k < front.len() && front[k] == number;
                assert(list[k] == number);
            }
        }
        let kept = possible(front);
        if list.last() >= 0 {
            let more = kept.push(list.last());
            assert(possible(list) =~= more);
            if kept.contains(number) {
                let k = choose|k: int| 0 <= k < kept.len() && kept[k] == number;
                assert(more[k] == number);
            }
            if list.last() == number {
                assert(more[kept.len() as int] == number);
            }
        } else {
            assert(possible(list) =~= kept);
        }
    }
}

/// Exactly the calls that are intercepted are understood: a call number is in
/// the filter's list if and only if it asks for something.
pub proof fn law_intercepted_calls_are_understood(platform: Platform, number: i64, args: Seq<u64>)
    requires
        number >= 0,
    ensures
        possible(listed(platform)).contains(number) <==> decoded(platform, number, args)
            != Call::Other,
{
    let list = listed(platform);
    lemma_possible(list, number);
    assert(list.contains(number) <==> decoded(platform, number, args) != Call::Other) by {
        let old = platform.legacy;
        let new = platform.modern;
        assert(list.len() == 33);
        assert(list[0] == old.open && list[1] == new.openat && list[2] == new.openat2 && list[3]
            == new.newfstatat && list[4] == new.statx && list[5] == old.access && list[6]
            == new.faccessat && list[7] == new.faccessat2 && list[8] == old.mkdir && list[9]
            == new.mkdirat && list[10] == old.unlink && list[11] == new.unlinkat && list[12]
            == old.rmdir && list[13] == old.rename && list[14] == new.renameat && list[15]
            == new.renameat2 && list[16] == old.readlink && list[17] == new.readlinkat && list[18]
            == old.symlink && list[19] == new.symlinkat && list[20] == new.getdents64 && list[21]
            == new.chdir && list[22] == new.fchdir && list[23] == new.getcwd && list[24]
            == new.truncate && list[25] == old.chmod && list[26] == new.fchmodat && list[27]
            == old.chown && list[28] == old.lchown && list[29] == new.fchownat && list[30]
            == new.utimensat && list[31] == new.execve && list[32] == new.execveat);
    }
}

/// Every call of the list that the machine has is intercepted, those that execute a
/// program among them.
pub proof fn law_possible_calls_are_intercepted(platform: Platform)
    ensures
        forall|i: int|
            0 <= i < listed(platform).len() && listed(platform)[i] >= 0 ==> possible(
                listed(platform),
            ).contains(#[trigger] listed(platform)[i]),
        platform.modern.execve >= 0 ==> possible(listed(platform)).contains(
            platform.modern.execve,
        ),
        platform.modern.execveat >= 0 ==> possible(listed(platform)).contains(
            platform.modern.execveat,
        ),
{
    let list = listed(platform);
    assert forall|i: int| 0 <= i < list.len() && list[i] >= 0 implies possible(list).contains(
        #[trigger] list[i],
    ) by {
        lemma_possible(list, list[i]);
    }
    assert(list[31] == platform.modern.execve);
    assert(list[32] == platform.modern.execveat);
}

/// No call is intercepted twice: the list has each number once where the numbers
/// of the calls that the machine has differ.
pub proof fn law_calls_are_listed_once(platform: Platform)
    requires
        told_apart(listed(platform)),
    ensures
        possible(listed(platform)).no_duplicates(),
{
    lemma_kept(listed(platform));
}

/// On every machine each call that every machine has is intercepted.
pub proof fn law_shared_calls_are_intercepted(platform: Platform)
    requires
        portable(platform),
    ensures
        forall|i: int|
            0 <= i < shared_calls(platform.modern).len() ==> possible(
                listed(platform),
            ).contains(#[trigger] shared_calls(platform.modern)[i]),
        possible(listed(platform)).contains(platform.modern.execve),
        possible(listed(platform)).contains(platform.modern.execveat),
{
    let list = listed(platform);
    let shared = shared_calls(platform.modern);
    let places: Seq<int> = seq![
        1, 2, 3, 4, 6, 7, 9, 11, 14, 15, 17, 19, 20, 21, 22, 23, 24, 26, 29, 30, 31, 32,
    ];
    law_possible_calls_are_intercepted(platform);
    assert forall|i: int| 0 <= i < shared.len() implies possible(list).contains(
        #[trigger] shared[i],
    ) by {
        assert(list[places[i]] == shared[i]);
    }
    assert(shared[20] == platform.modern.execve);
    assert(shared[21] == platform.modern.execveat);
}

/// The calls of every machine differ where its older calls, if it has any, differ
/// from each other and from the calls that every machine has.
pub proof fn law_calls_are_told_apart(platform: Platform)
    requires
        portable(platform),
        told_apart(older_calls(platform.legacy)),
        forall|i: int, j: int|
            0 <= i < older_calls(platform.legacy).len() && 0 <= j < shared_calls(
                platform.modern,
            ).len() ==> #[trigger] older_calls(platform.legacy)[i] != #[trigger] shared_calls(
                platform.modern,
            )[j],
    ensures
        told_apart(listed(platform)),
{
    let list = listed(platform);
    let older = older_calls(platform.legacy);
    let shared = shared_calls(platform.modern);
    let all = older + shared;
    assert(told_apart(all)) by {
        assert forall|i: int, j: int| 0 <= i < j < all.len() && #[trigger] all[i] >= 0 implies all[i]
            != #[trigger] all[j] by {
            if j < older.len() {
                assert(older[i] != older[j]);
            } else if i < older.len() {
                assert(older[i] != shared[j - older.len()]);
            } else {
                assert(shared[i - older.len()] != shared[j - older.len()]);
            }
        }
    }
    let places: Seq<int> = seq![
        0, 11, 12, 13, 14, 1, 15, 16, 2, 17, 3, 18, 4, 5, 19, 20, 6, 21, 7, 22, 23, 24, 25, 26, 27,
        8, 28, 9, 10, 29, 30, 31, 32,
    ];
    assert forall|i: int| 0 <= i < list.len() implies (#[trigger] list[i]) == all[places[i]] by {}
    assert(places.no_duplicates());
    assert forall|i: int, j: int| 0 <= i < j < list.len() && #[trigger] list[i] >= 0 implies list[i]
        != #[trigger] list[j] by {
        let a = places[i];
        let b = places[j];
        assert(all[a] == list[i] && all[b] == list[j]);
        assert(0 <= a < 33 && 0 <= b < 33 && a != b);
    }
}

} // verus!
