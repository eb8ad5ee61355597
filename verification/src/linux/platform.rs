//! Numbers that the kernel interface gives to system calls, flags and errors.

use vstd::prelude::*;

verus! {

/// The system calls that only some machines have, each -1 where it is missing.
#[derive(Clone, Copy, Debug)]
pub struct Legacy {
    pub open: i64,
    pub access: i64,
    pub mkdir: i64,
    pub unlink: i64,
    pub rmdir: i64,
    pub rename: i64,
    pub readlink: i64,
    pub symlink: i64,
    pub chmod: i64,
    pub chown: i64,
    pub lchown: i64,
}

/// The system calls that every machine has.
#[derive(Clone, Copy, Debug)]
pub struct Modern {
    pub openat: i64,
    pub openat2: i64,
    pub newfstatat: i64,
    pub statx: i64,
    pub faccessat: i64,
    pub faccessat2: i64,
    pub mkdirat: i64,
    pub unlinkat: i64,
    pub renameat: i64,
    pub renameat2: i64,
    pub readlinkat: i64,
    pub symlinkat: i64,
    pub getdents64: i64,
    pub chdir: i64,
    pub fchdir: i64,
    pub getcwd: i64,
    pub truncate: i64,
    pub fchmodat: i64,
    pub fchownat: i64,
    pub utimensat: i64,
    pub execve: i64,
    pub execveat: i64,
}

/// Flags of path arguments and of opening.
#[derive(Clone, Copy, Debug)]
pub struct Flags {
    pub at_fdcwd: i32,
    pub at_symlink_nofollow: i32,
    pub at_removedir: i32,
    pub at_empty_path: i32,
    pub o_wronly: i32,
    pub o_rdwr: i32,
    pub o_creat: i32,
    pub o_excl: i32,
    pub o_trunc: i32,
    pub o_append: i32,
    pub o_cloexec: i32,
    pub o_directory: i32,
}

/// Error numbers.
#[derive(Clone, Copy, Debug)]
pub struct Errors {
    pub enoent: i32,
    pub eio: i32,
    pub efault: i32,
    pub enotdir: i32,
    pub einval: i32,
    pub erange: i32,
    pub enametoolong: i32,
    pub enotsup: i32,
}

/// The kernel interface of one machine.
#[derive(Clone, Copy, Debug)]
pub struct Platform {
    pub legacy: Legacy,
    pub modern: Modern,
    pub flags: Flags,
    pub errors: Errors,
}

/// The numbers of the system calls that only some machines have.
pub open spec fn older_calls(legacy: Legacy) -> Seq<i64> {
    seq![
        legacy.open, legacy.access, legacy.mkdir, legacy.unlink, legacy.rmdir, legacy.rename,
        legacy.readlink, legacy.symlink, legacy.chmod, legacy.chown, legacy.lchown,
    ]
}

/// The numbers of the system calls that every machine has.
pub open spec fn shared_calls(modern: Modern) -> Seq<i64> {
    seq![
        modern.openat, modern.openat2, modern.newfstatat, modern.statx, modern.faccessat,
        modern.faccessat2, modern.mkdirat, modern.unlinkat, modern.renameat, modern.renameat2,
        modern.readlinkat, modern.symlinkat, modern.getdents64, modern.chdir, modern.fchdir,
        modern.getcwd, modern.truncate, modern.fchmodat, modern.fchownat, modern.utimensat,
        modern.execve, modern.execveat,
    ]
}

/// Every number of the list is one that a call can have.
pub open spec fn all_possible(list: Seq<i64>) -> bool {
    forall|i: int| 0 <= i < list.len() ==> #[trigger] list[i] >= 0
}

/// No two calls of the list share a number that a call can have.
pub open spec fn told_apart(list: Seq<i64>) -> bool {
    forall|i: int, j: int|
        0 <= i < j < list.len() && #[trigger] list[i] >= 0 ==> list[i] != #[trigger] list[j]
}

/// The bits that opening takes, the two that ask for writing among them.
pub open spec fn opening_bits(flags: Flags) -> Seq<i32> {
    seq![
        flags.o_wronly, flags.o_rdwr, flags.o_creat, flags.o_excl, flags.o_trunc, flags.o_append,
        flags.o_cloexec, flags.o_directory,
    ]
}

/// Every member of the list has a bit, and no two members share one.
pub open spec fn separate(bits: Seq<i32>) -> bool {
    &&& forall|i: int| 0 <= i < bits.len() ==> #[trigger] bits[i] > 0
    &&& forall|i: int, j: int|
        0 <= i < j < bits.len() ==> (#[trigger] bits[i]) & (#[trigger] bits[j]) == 0
}

/// Reads the system call numbers that `libc` has for every Linux machine
/// (`libc::SYS_openat` and its like). They differ between machines, so their
/// values are not claimed; on each machine none is below zero, and different
/// calls have different numbers.
#[verifier::external_body]
fn modern() -> (numbers: Modern)
    ensures
        all_possible(shared_calls(numbers)),
        shared_calls(numbers).no_duplicates(),
{
    Modern {
        openat: libc::SYS_openat, openat2: libc::SYS_openat2,
        newfstatat: libc::SYS_newfstatat, statx: libc::SYS_statx,
        faccessat: libc::SYS_faccessat, faccessat2: libc::SYS_faccessat2,
        mkdirat: libc::SYS_mkdirat, unlinkat: libc::SYS_unlinkat,
        renameat: libc::SYS_renameat, renameat2: libc::SYS_renameat2,
        readlinkat: libc::SYS_readlinkat, symlinkat: libc::SYS_symlinkat,
        getdents64: libc::SYS_getdents64, chdir: libc::SYS_chdir,
        fchdir: libc::SYS_fchdir, getcwd: libc::SYS_getcwd,
        truncate: libc::SYS_truncate, fchmodat: libc::SYS_fchmodat,
        fchownat: libc::SYS_fchownat, utimensat: libc::SYS_utimensat,
        execve: libc::SYS_execve, execveat: libc::SYS_execveat,
    }
}

/// Reads the flags of path arguments and of opening from `libc`
/// (`libc::AT_FDCWD`, `libc::O_CREAT` and their like). The values stated are the
/// same on every Linux machine. The others differ; on each machine a flag of
/// opening is above zero and shares no bit with another one.
#[verifier::external_body]
fn flags() -> (flags: Flags)
    ensures
        flags.at_fdcwd == -100,
        flags.at_symlink_nofollow == 0x100,
        flags.at_removedir == 0x200,
        flags.at_empty_path == 0x1000,
        flags.o_wronly == 1,
        flags.o_rdwr == 2,
        separate(opening_bits(flags)),
{
    Flags {
        at_fdcwd: libc::AT_FDCWD, at_symlink_nofollow: libc::AT_SYMLINK_NOFOLLOW,
        at_removedir: libc::AT_REMOVEDIR, at_empty_path: libc::AT_EMPTY_PATH,
        o_wronly: libc::O_WRONLY, o_rdwr: libc::O_RDWR, o_creat: libc::O_CREAT,
        o_excl: libc::O_EXCL, o_trunc: libc::O_TRUNC, o_append: libc::O_APPEND,
        o_cloexec: libc::O_CLOEXEC, o_directory: libc::O_DIRECTORY,
    }
}

/// Reads error numbers from `libc` (`libc::ENOENT` and its like). The values
/// stated are the same on every Linux machine. The other two differ; on each
/// machine they are above those stated and not equal.
#[verifier::external_body]
fn errors() -> (errors: Errors)
    ensures
        errors.enoent == 2,
        errors.eio == 5,
        errors.efault == 14,
        errors.enotdir == 20,
        errors.einval == 22,
        errors.erange == 34,
        errors.enametoolong > 34,
        errors.enotsup > 34,
        errors.enametoolong != errors.enotsup,
{
    Errors {
        enoent: libc::ENOENT, eio: libc::EIO, efault: libc::EFAULT, enotdir: libc::ENOTDIR,
        einval: libc::EINVAL, erange: libc::ERANGE, enametoolong: libc::ENAMETOOLONG,
        enotsup: libc::ENOTSUP,
    }
}

/// What holds on every Linux machine: the values that are the same on all of them,
/// and that those which differ are told apart.
pub open spec fn portable(platform: Platform) -> bool {
    &&& platform.flags.at_fdcwd == -100
    &&& platform.flags.at_symlink_nofollow == 0x100
    &&& platform.flags.at_removedir == 0x200
    &&& platform.flags.at_empty_path == 0x1000
    &&& platform.flags.o_wronly == 1
    &&& platform.flags.o_rdwr == 2
    &&& platform.errors.enoent == 2
    &&& platform.errors.eio == 5
    &&& platform.errors.efault == 14
    &&& platform.errors.enotdir == 20
    &&& platform.errors.einval == 22
    &&& platform.errors.erange == 34
    &&& platform.errors.enametoolong > 34
    &&& platform.errors.enotsup > 34
    &&& platform.errors.enametoolong != platform.errors.enotsup
    &&& all_possible(shared_calls(platform.modern))
    &&& shared_calls(platform.modern).no_duplicates()
    &&& separate(opening_bits(platform.flags))
}

impl Platform {
    /// The kernel interface of this machine, whose own older system calls are
    /// `legacy`.
    pub fn current(legacy: Legacy) -> (platform: Platform)
        ensures
            platform.legacy == legacy,
            portable(platform),
    {
        Platform { legacy, modern: modern(), flags: flags(), errors: errors() }
    }
}

} // verus!
