use pathshim::bind::{BindSpec, BindView, EXDEV};
use pathshim::directory::DirEntry;
use pathshim::linux::calls::{handle, intercepted_syscalls, Call};
use pathshim::linux::dispatch::{
    answer_link, c_path, finish_open, handle_access, handle_chdir, handle_chmod, handle_chown,
    handle_fchdir, handle_getcwd, handle_getdents, handle_mkdir, handle_open, handle_readlink,
    handle_rename, handle_stat, handle_statx, handle_symlink, handle_truncate, handle_unlink,
    handle_utimensat, immediate_response, passthrough, Action,
};
use pathshim::linux::execute;
use pathshim::linux::execute::{executable_alias, rewritten_argument};
use pathshim::linux::plan::{needs, opening_flags, plan, Facts, Needs, PathArgument};
use pathshim::linux::platform::{Legacy, Platform};
use pathshim::linux::progress::{proceed, Outcome};
use pathshim::linux::seccomp::{
    build_filter, errno, ioc, jump, notif_addfd_ioctl, notif_recv_ioctl, notif_send_ioctl,
    respond_continue, respond_error, respond_result, respond_value, stmt, Injection, Instruction,
    Response, ADDFD_FLAG_SEND, ALLOW, USER_NOTIF,
};
use pathshim::linux::state::State;
use pathshim::number::ByteOrder;

const LEGACY: Legacy = Legacy {
    open: 1002,
    access: 1021,
    mkdir: 1083,
    unlink: 1087,
    rmdir: 1084,
    rename: 1082,
    readlink: 1089,
    symlink: 1088,
    chmod: 1090,
    chown: 1092,
    lchown: 1094,
};

const MISSING: Legacy = Legacy {
    open: -1,
    access: -1,
    mkdir: -1,
    unlink: -1,
    rmdir: -1,
    rename: -1,
    readlink: -1,
    symlink: -1,
    chmod: -1,
    chown: -1,
    lchown: -1,
};

fn platform() -> Platform {
    Platform::current(LEGACY)
}

fn view() -> BindView {
    BindView::open(vec![
        BindSpec { source: b"/src".to_vec(), destination: b"/workspace".to_vec() },
        BindSpec { source: b"/cache".to_vec(), destination: b"/workspace/cache".to_vec() },
    ])
    .unwrap()
}

fn ok(path: &str) -> Result<Vec<u8>, i32> {
    Ok(path.as_bytes().to_vec())
}

fn entry(name: &str, inode: u64) -> DirEntry {
    DirEntry { name: name.as_bytes().to_vec(), inode, file_type: 8 }
}

#[test]
fn the_platform_is_that_of_the_machine() {
    let platform = platform();
    assert_eq!(platform.modern.openat, libc::SYS_openat);
    assert_eq!(platform.modern.execveat, libc::SYS_execveat);
    assert_eq!(platform.modern.renameat2, libc::SYS_renameat2);
    assert_eq!(platform.modern.newfstatat, libc::SYS_newfstatat);
    assert_eq!(platform.flags.at_fdcwd, libc::AT_FDCWD);
    assert_eq!(platform.flags.o_directory, libc::O_DIRECTORY);
    assert_eq!(platform.flags.o_cloexec, libc::O_CLOEXEC);
    assert_eq!(platform.errors.enametoolong, libc::ENAMETOOLONG);
    assert_eq!(platform.errors.enotsup, libc::ENOTSUP);
    assert_eq!(platform.errors.erange, libc::ERANGE);
}

#[test]
fn calls_that_a_machine_lacks_are_not_intercepted() {
    let all = intercepted_syscalls(&platform());
    assert_eq!(all.len(), 33);
    assert_eq!(all[0], 1002);
    assert!(all.contains(&libc::SYS_execve));
    assert!(all.contains(&libc::SYS_execveat));
    let modern = intercepted_syscalls(&Platform::current(MISSING));
    assert_eq!(modern.len(), 22);
    assert_eq!(modern[0], libc::SYS_openat);
    assert!(modern.iter().all(|number| *number >= 0));
}

#[test]
fn no_call_is_intercepted_twice() {
    for legacy in [LEGACY, MISSING] {
        let mut numbers = intercepted_syscalls(&Platform::current(legacy));
        let count = numbers.len();
        assert!(numbers.iter().all(|number| *number >= 0));
        numbers.sort();
        numbers.dedup();
        assert_eq!(numbers.len(), count);
    }
}

#[test]
fn flags_of_opening_share_no_bit() {
    let flags = platform().flags;
    let bits = [
        flags.o_wronly,
        flags.o_rdwr,
        flags.o_creat,
        flags.o_excl,
        flags.o_trunc,
        flags.o_append,
        flags.o_cloexec,
        flags.o_directory,
    ];
    let mut together = 0;
    for bit in bits {
        assert!(bit > 0);
        assert_eq!(together & bit, 0);
        together |= bit;
    }
}

#[test]
fn every_intercepted_call_is_understood() {
    let platform = platform();
    let args = [1u64, 2, 3, 4, 5, 6];
    for number in intercepted_syscalls(&platform) {
        assert_ne!(handle(&platform, number, &args), Call::Other);
    }
    assert_eq!(handle(&platform, libc::SYS_read, &args), Call::Other);
}

#[test]
fn arguments_are_taken_from_their_places() {
    let platform = platform();
    let here = libc::AT_FDCWD;
    let args = [11u64, 22, 33, 44, 55, 66];
    let numbers = platform.modern;
    for (number, call) in [
        (1002, Call::Open { dirfd: here, path: 11, flags: 22, mode: 33 }),
        (numbers.openat, Call::Open { dirfd: 11, path: 22, flags: 33, mode: 44 }),
        (numbers.openat2, Call::OpenHow { dirfd: 11, path: 22, how: 33 }),
        (numbers.newfstatat, Call::Stat { dirfd: 11, path: 22, output: 33, flags: 44 }),
        (numbers.statx, Call::Statx { dirfd: 11, path: 22, flags: 33, mask: 44, output: 55 }),
        (1021, Call::Access { dirfd: here, path: 11, rights: 22, flags: 0 }),
        (numbers.faccessat, Call::Access { dirfd: 11, path: 22, rights: 33, flags: 44 }),
        (numbers.faccessat2, Call::Access { dirfd: 11, path: 22, rights: 33, flags: 44 }),
        (1083, Call::MakeDirectory { dirfd: here, path: 11, mode: 22 }),
        (numbers.mkdirat, Call::MakeDirectory { dirfd: 11, path: 22, mode: 33 }),
        (1087, Call::Remove { dirfd: here, path: 11, flags: 0 }),
        (1084, Call::Remove { dirfd: here, path: 11, flags: libc::AT_REMOVEDIR }),
        (numbers.unlinkat, Call::Remove { dirfd: 11, path: 22, flags: 33 }),
        (
            1082,
            Call::Rename { from_dirfd: here, from: 11, to_dirfd: here, to: 22, variant: 0 },
        ),
        (
            numbers.renameat,
            Call::Rename { from_dirfd: 11, from: 22, to_dirfd: 33, to: 44, variant: 0 },
        ),
        (
            numbers.renameat2,
            Call::Rename { from_dirfd: 11, from: 22, to_dirfd: 33, to: 44, variant: 55 },
        ),
        (1089, Call::ReadLink { dirfd: here, path: 11, buffer: 22, size: 33 }),
        (numbers.readlinkat, Call::ReadLink { dirfd: 11, path: 22, buffer: 33, size: 44 }),
        (1088, Call::MakeLink { target: 11, dirfd: here, link: 22 }),
        (numbers.symlinkat, Call::MakeLink { target: 11, dirfd: 22, link: 33 }),
        (numbers.getdents64, Call::List { fd: 11, buffer: 22, capacity: 33 }),
        (numbers.chdir, Call::Enter { path: 11 }),
        (numbers.fchdir, Call::EnterDescriptor { fd: 11 }),
        (numbers.getcwd, Call::WorkingDirectory { buffer: 11, size: 22 }),
        (numbers.truncate, Call::Truncate { path: 11, length: 22 }),
        (1090, Call::ChangeMode { dirfd: here, path: 11, mode: 22 }),
        (numbers.fchmodat, Call::ChangeMode { dirfd: 11, path: 22, mode: 33 }),
        (1092, Call::ChangeOwner { dirfd: here, path: 11, owner: 22, group: 33, flags: 0 }),
        (
            1094,
            Call::ChangeOwner {
                dirfd: here,
                path: 11,
                owner: 22,
                group: 33,
                flags: libc::AT_SYMLINK_NOFOLLOW,
            },
        ),
        (
            numbers.fchownat,
            Call::ChangeOwner { dirfd: 11, path: 22, owner: 33, group: 44, flags: 55 },
        ),
        (numbers.utimensat, Call::SetTimes { dirfd: 11, path: 22, times: 33, flags: 44 }),
        (numbers.execve, Call::Execute { dirfd: here, path: 11, flags: 0 }),
        (numbers.execveat, Call::Execute { dirfd: 11, path: 22, flags: 55 }),
    ] {
        assert_eq!(handle(&platform, number, &args), call);
    }
}

#[test]
fn wide_arguments_are_cut_to_their_types() {
    let platform = platform();
    let args = [0xffff_ff9cu64, 1, 0x1_0000_0002, 0, 0, 0];
    assert_eq!(
        handle(&platform, platform.modern.openat, &args),
        Call::Open { dirfd: -100, path: 1, flags: 2, mode: 0 }
    );
    assert_eq!(
        handle(&platform, platform.modern.truncate, &[1, u64::MAX, 0, 0, 0, 0]),
        Call::Truncate { path: 1, length: -1 }
    );
}

fn verdict(filter: &[Instruction], number: u32) -> u32 {
    let mut at = 0;
    let mut loaded = 0;
    loop {
        let instruction = filter[at];
        at += 1;
        match instruction.code {
            0x20 => loaded = number,
            0x15 => {
                at += if loaded == instruction.k { instruction.jt } else { instruction.jf } as usize
            }
            0x06 => return instruction.k,
            _ => panic!("unknown instruction"),
        }
    }
}

#[test]
fn the_filter_selects_listed_calls() {
    let filter = build_filter(&vec![2, 257, 59]);
    assert_eq!(filter.len(), 8);
    assert_eq!(filter[0], stmt(0x20, 0));
    assert_eq!(filter[1], jump(0x15, 2, 0, 1));
    for number in 0..300 {
        let expected = if [2, 257, 59].contains(&number) { USER_NOTIF } else { ALLOW };
        assert_eq!(verdict(&filter, number), expected);
    }
    assert_eq!(build_filter(&vec![]), vec![stmt(0x20, 0), stmt(0x06, ALLOW)]);
}

#[test]
fn control_requests_have_their_kernel_numbers() {
    assert_eq!(notif_recv_ioctl(80), 0xc050_2100);
    assert_eq!(notif_send_ioctl(24), 0xc018_2101);
    assert_eq!(notif_addfd_ioctl(24), 0x4018_2103);
    assert_eq!(ioc(0, 0, 7, 0), 7);
}

#[test]
fn responses_are_filled_in() {
    assert_eq!(respond_continue(7), Response { id: 7, val: 0, error: 0, flags: 1 });
    assert_eq!(respond_value(7, -3), Response { id: 7, val: -3, error: 0, flags: 0 });
    assert_eq!(respond_error(7, 2), Response { id: 7, val: 0, error: -2, flags: 0 });
    assert_eq!(respond_result(7, Ok(5)), respond_value(7, 5));
    assert_eq!(respond_result(7, Err(5)), respond_error(7, 5));
    assert_eq!(errno(Some(13), 5), 13);
    assert_eq!(errno(None, 5), 5);
    assert_eq!(
        immediate_response(1, &Action::Continue),
        Some(Response { id: 1, val: 0, error: 0, flags: 1 })
    );
    assert_eq!(immediate_response(1, &Action::Fail(20)), Some(respond_error(1, 20)));
    assert_eq!(immediate_response(1, &Action::Value(0)), Some(respond_value(1, 0)));
    assert_eq!(immediate_response(1, &Action::RemoveFile { path: b"/x".to_vec() }), None);
}

#[test]
fn bind_replaces_selected_subtree_and_leaves_outside_paths_alone() {
    let platform = platform();
    let view = view();
    let opened = |path: &str| handle_open(&view, &ok(path), libc::O_RDONLY, 0, &platform);
    let at = |path: &str| Action::Open {
        path: path.as_bytes().to_vec(),
        flags: libc::O_RDONLY,
        mode: 0,
        descriptor_flags: 0,
    };
    assert_eq!(opened("/workspace/input.txt"), at("/src/input.txt"));
    assert_eq!(opened("/workspace/destination-only.txt"), at("/src/destination-only.txt"));
    assert_eq!(opened("/workspace/cache/item"), at("/cache/item"));
    assert_eq!(opened("/tmp/outside.txt"), at("/tmp/outside.txt"));
    assert_eq!(opened("/proc/self/status"), Action::Continue);
}

#[test]
fn close_on_exec_goes_to_the_injected_descriptor() {
    let platform = platform();
    let flags = libc::O_WRONLY | libc::O_CREAT | libc::O_CLOEXEC;
    assert_eq!(
        handle_open(&view(), &ok("/workspace/f"), flags, 0o644, &platform),
        Action::Open {
            path: b"/src/f".to_vec(),
            flags: libc::O_WRONLY | libc::O_CREAT,
            mode: 0o644,
            descriptor_flags: libc::O_CLOEXEC as u32,
        }
    );
    let opened = handle_open(&view(), &ok("/workspace/f"), flags, 0o644, &platform);
    let injected = proceed(9, opened, Outcome::Descriptor(4), &platform);
    assert_eq!(
        injected,
        Action::Inject {
            injection: Injection {
                id: 9,
                flags: ADDFD_FLAG_SEND,
                srcfd: 4,
                newfd: 0,
                newfd_flags: libc::O_CLOEXEC as u32,
            },
        }
    );
    assert_eq!(
        proceed(9, injected, Outcome::Descriptor(7), &platform),
        Action::Answered { fd: 7 }
    );
}

#[test]
fn a_path_that_could_not_be_read_fails_the_call() {
    let platform = platform();
    let view = view();
    let guest: Result<Vec<u8>, i32> = Err(libc::EFAULT);
    let failed = Action::Fail(libc::EFAULT);
    assert_eq!(handle_open(&view, &guest, 0, 0, &platform), failed);
    assert_eq!(handle_stat(&view, false, &guest, 0, 1, &platform), failed);
    assert_eq!(handle_statx(&view, false, &guest, 0, 0, 1, &platform), failed);
    assert_eq!(handle_access(&view, &guest, 0, 0, &platform), failed);
    assert_eq!(handle_mkdir(&view, &guest, 0, &platform), failed);
    assert_eq!(handle_unlink(&view, &guest, 0, &platform), failed);
    assert_eq!(handle_rename(&view, &guest, &ok("/a"), 0, &platform), failed);
    assert_eq!(handle_rename(&view, &ok("/a"), &guest, 0, &platform), failed);
    assert_eq!(handle_symlink(&view, &guest, &ok("/a"), &platform), failed);
    assert_eq!(handle_symlink(&view, &ok("a"), &guest, &platform), failed);
    assert_eq!(handle_truncate(&view, &guest, 0, &platform), failed);
    assert_eq!(handle_chmod(&view, &guest, 0, &platform), failed);
    assert_eq!(handle_chown(&view, &guest, 0, 0, 0, &platform), failed);
    assert_eq!(handle_utimensat(&view, &guest, 0, 0, &platform), failed);
    assert_eq!(handle_readlink(&view, &guest, 1, 1, &None, 0, 0, &platform), failed);
    assert_eq!(execute::handle(&view, &guest, &guest, 1, 0, &platform), failed);
}

#[test]
fn calls_on_host_paths_are_left_to_the_kernel() {
    let platform = platform();
    let view = view();
    let guest = ok("/dev/null");
    assert_eq!(handle_stat(&view, false, &guest, 0, 1, &platform), Action::Continue);
    assert_eq!(handle_statx(&view, false, &guest, 0, 0, 1, &platform), Action::Continue);
    assert_eq!(handle_access(&view, &guest, 0, 0, &platform), Action::Continue);
    assert_eq!(handle_truncate(&view, &guest, 0, &platform), Action::Continue);
    assert_eq!(handle_chmod(&view, &guest, 0, &platform), Action::Continue);
    assert_eq!(handle_chown(&view, &guest, 0, 0, 0, &platform), Action::Continue);
    assert_eq!(handle_utimensat(&view, &guest, 0, 0, &platform), Action::Continue);
    assert_eq!(
        handle_readlink(&view, &guest, 1, 1, &None, 0, 0, &platform),
        Action::Continue
    );
    assert!(passthrough(b"/dev"));
    assert!(!passthrough(b"/workspace/dev"));
}

#[test]
fn looks_go_to_the_source() {
    let platform = platform();
    let view = view();
    let guest = ok("/workspace/a");
    let path = b"/src/a".to_vec();
    assert_eq!(
        handle_stat(&view, false, &guest, 256, 9, &platform),
        Action::Stat { path: path.clone(), flags: 256, output: 9 }
    );
    assert_eq!(
        handle_statx(&view, false, &guest, 1, 2, 3, &platform),
        Action::Statx { path: path.clone(), flags: 1, mask: 2, output: 3 }
    );
    assert_eq!(
        handle_access(&view, &guest, 4, 0, &platform),
        Action::Access { path, rights: 4, flags: 0 }
    );
}

#[test]
fn an_empty_path_with_its_flag_stands_for_the_descriptor() {
    let platform = platform();
    let view = view();
    let guest: Result<Vec<u8>, i32> = Err(libc::ENOENT);
    let flags = libc::AT_EMPTY_PATH;
    assert_eq!(handle_stat(&view, true, &guest, flags, 9, &platform), Action::Continue);
    assert_eq!(handle_statx(&view, true, &guest, flags, 0, 9, &platform), Action::Continue);
    assert_eq!(
        handle_stat(&view, true, &guest, 0, 9, &platform),
        Action::Fail(libc::ENOENT)
    );
}

#[test]
fn changes_go_to_the_source() {
    let platform = platform();
    let view = view();
    let guest = ok("/workspace/a");
    let path = b"/src/a".to_vec();
    assert_eq!(
        handle_mkdir(&view, &guest, 0o755, &platform),
        Action::MakeDirectory { path: path.clone(), mode: 0o755 }
    );
    assert_eq!(
        handle_unlink(&view, &guest, 0, &platform),
        Action::RemoveFile { path: path.clone() }
    );
    assert_eq!(
        handle_unlink(&view, &guest, libc::AT_REMOVEDIR, &platform),
        Action::RemoveDirectory { path: path.clone() }
    );
    assert_eq!(
        handle_truncate(&view, &guest, 10, &platform),
        Action::Truncate { path: path.clone(), length: 10 }
    );
    assert_eq!(
        handle_chmod(&view, &guest, 0o600, &platform),
        Action::ChangeMode { path: path.clone(), mode: 0o600 }
    );
    assert_eq!(
        handle_chown(&view, &guest, 1, 2, 256, &platform),
        Action::ChangeOwner { path: path.clone(), owner: 1, group: 2, flags: 256 }
    );
    assert_eq!(
        handle_utimensat(&view, &guest, 77, 0, &platform),
        Action::SetTimes { path: path.clone(), times: 77, flags: 0 }
    );
    assert_eq!(
        handle_symlink(&view, &ok("../target"), &guest, &platform),
        Action::MakeLink { target: b"../target".to_vec(), path }
    );
}

#[test]
fn renames_stay_on_their_side_of_a_border() {
    let platform = platform();
    let view = view();
    let rename = |from: &str, to: &str| handle_rename(&view, &ok(from), &ok(to), 0, &platform);
    assert_eq!(
        rename("/workspace/a", "/workspace/b"),
        Action::Rename { from: b"/src/a".to_vec(), to: b"/src/b".to_vec() }
    );
    assert_eq!(
        rename("/tmp/a", "/tmp/b"),
        Action::Rename { from: b"/tmp/a".to_vec(), to: b"/tmp/b".to_vec() }
    );
    assert_eq!(rename("/workspace/a", "/tmp/b"), Action::Fail(EXDEV));
    assert_eq!(rename("/tmp/a", "/workspace/b"), Action::Fail(EXDEV));
    assert_eq!(rename("/workspace/a", "/workspace/cache/b"), Action::Fail(EXDEV));
    assert_eq!(
        handle_rename(&view, &ok("/tmp/a"), &ok("/tmp/b"), 1, &platform),
        Action::Fail(libc::ENOTSUP)
    );
}

#[test]
fn links_are_cut_off_at_the_buffer() {
    let platform = platform();
    assert_eq!(
        handle_readlink(&view(), &ok("/workspace/l"), 1, 1, &None, 50, 60, &platform),
        Action::ReadLink { path: b"/src/l".to_vec(), buffer: 50, size: 60 }
    );
    assert_eq!(
        answer_link(b"target", 8, 4),
        Action::Write { bytes: b"targ".to_vec(), address: 8, value: 4 }
    );
    assert_eq!(
        answer_link(b"target", 8, 100),
        Action::Write { bytes: b"target".to_vec(), address: 8, value: 6 }
    );
}

#[test]
fn the_link_to_the_own_working_directory_tells_the_guest_path() {
    let platform = platform();
    let view = view();
    let cwd = Some(b"/workspace/project".to_vec());
    let told = Action::Write { bytes: b"/workspace/project".to_vec(), address: 8, value: 18 };
    for path in
        ["/proc/self/cwd", "/proc/thread-self/cwd", "/proc/12/cwd", "/proc/10/cwd"]
    {
        assert_eq!(handle_readlink(&view, &ok(path), 12, 10, &cwd, 8, 99, &platform), told);
        assert_eq!(
            handle_readlink(&view, &ok(path), 12, 10, &None, 8, 99, &platform),
            Action::Continue
        );
    }
    assert_eq!(
        handle_readlink(&view, &ok("/proc/11/cwd"), 12, 10, &cwd, 8, 99, &platform),
        Action::Continue
    );
}

#[test]
fn paths_with_a_zero_byte_are_refused() {
    let platform = platform();
    let view = view();
    let guest = ok("/workspace/a\0b");
    assert_eq!(handle_open(&view, &guest, 0, 0, &platform), Action::Fail(libc::EINVAL));
    assert_eq!(handle_chmod(&view, &guest, 0, &platform), Action::Fail(libc::EINVAL));
    assert_eq!(handle_mkdir(&view, &guest, 0, &platform), Action::Fail(libc::EIO));
    assert_eq!(handle_unlink(&view, &guest, 0, &platform), Action::Fail(libc::EIO));
    assert_eq!(
        handle_rename(&view, &ok("/workspace/x"), &guest, 0, &platform),
        Action::Fail(libc::EIO)
    );
    assert_eq!(handle_symlink(&view, &ok("x"), &guest, &platform), Action::Fail(libc::EIO));
    assert_eq!(handle_symlink(&view, &ok("\0"), &ok("/a"), &platform), Action::Fail(libc::EIO));
    assert_eq!(c_path(b"/a".to_vec(), 22), Ok(b"/a".to_vec()));
    assert_eq!(c_path(b"/\0".to_vec(), 22), Err(22));
}

#[test]
fn opened_directories_are_remembered_and_listed() {
    let platform = platform();
    let mut state = State::new(view());
    let entries = || Some(vec![entry("a", 1), entry("bcdef", 2)]);
    finish_open(&mut state, 7, 3, b"/workspace/d".to_vec(), 0, false, entries(), &platform);
    assert_eq!(state.directory_path(7, 3), None);
    finish_open(&mut state, 7, 3, b"/workspace/d".to_vec(), 0, true, None, &platform);
    assert_eq!(state.directory_path(7, 3), None);
    let flags = libc::O_DIRECTORY;
    finish_open(&mut state, 7, 3, b"/workspace/d".to_vec(), flags, false, entries(), &platform);
    assert_eq!(state.directory_path(7, 3), Some(b"/workspace/d".to_vec()));
    assert_eq!(state.directory_path(7, 4), None);
    assert_eq!(state.directory_path(8, 3), None);

    let order = ByteOrder::Little;
    assert_eq!(
        handle_getdents(&mut state, 7, 4, 100, 4096, order, &platform),
        Action::Continue
    );
    assert_eq!(
        handle_getdents(&mut state, 8, 3, 100, 4096, order, &platform),
        Action::Continue
    );
    assert_eq!(
        handle_getdents(&mut state, 7, 3, 100, 10, order, &platform),
        Action::Fail(libc::EINVAL)
    );
    let first = handle_getdents(&mut state, 7, 3, 100, 40, order, &platform);
    let second = handle_getdents(&mut state, 7, 3, 100, 40, order, &platform);
    let third = handle_getdents(&mut state, 7, 3, 100, 40, order, &platform);
    match (first, second) {
        (
            Action::Write { bytes: first, address: 100, value: 24 },
            Action::Write { bytes: second, address: 100, value: 32 },
        ) => {
            assert_eq!(&first[19..21], b"a\0");
            assert_eq!(&second[19..25], b"bcdef\0");
            assert_eq!(second[8], 2);
        }
        _ => panic!("expected records"),
    }
    assert_eq!(third, Action::Write { bytes: vec![], address: 100, value: 0 });
}

#[test]
fn guest_working_directories_are_kept() {
    let platform = platform();
    let mut state = State::new(view());
    assert_eq!(
        handle_chdir(&mut state, 7, &ok("/workspace/p"), Ok(true), &platform),
        Action::Value(0)
    );
    assert_eq!(state.known_cwd(7), Some(b"/workspace/p".to_vec()));
    assert_eq!(
        handle_getcwd(&state.known_cwd(7), 50, 13, &platform),
        Action::Write { bytes: b"/workspace/p\0".to_vec(), address: 50, value: 13 }
    );
    assert_eq!(
        handle_getcwd(&state.known_cwd(7), 50, 12, &platform),
        Action::Fail(libc::ERANGE)
    );
    assert_eq!(handle_getcwd(&None, 50, 12, &platform), Action::Continue);

    assert_eq!(
        handle_chdir(&mut state, 7, &ok("/tmp"), Ok(true), &platform),
        Action::Continue
    );
    assert_eq!(state.known_cwd(7), Some(b"/tmp".to_vec()));
    assert_eq!(
        handle_chdir(&mut state, 7, &ok("/proc/1"), Err(2), &platform),
        Action::Continue
    );
    assert_eq!(state.known_cwd(7), Some(b"/proc/1".to_vec()));
    for (found, error) in [(Ok(false), libc::ENOTDIR), (Err(13), 13)] {
        assert_eq!(
            handle_chdir(&mut state, 7, &ok("/workspace/f"), found, &platform),
            Action::Fail(error)
        );
    }
    assert_eq!(
        handle_chdir(&mut state, 7, &Err(libc::EFAULT), Ok(true), &platform),
        Action::Fail(libc::EFAULT)
    );
    assert_eq!(state.known_cwd(7), Some(b"/proc/1".to_vec()));

    assert_eq!(handle_fchdir(&mut state, 7, 3, Ok(true), &platform), Action::Continue);
    assert_eq!(state.known_cwd(7), Some(b"/proc/1".to_vec()));
    state.remember_directory(7, 3, b"/workspace".to_vec(), vec![]);
    assert_eq!(
        handle_fchdir(&mut state, 7, 3, Ok(false), &platform),
        Action::Fail(libc::ENOTDIR)
    );
    assert_eq!(handle_fchdir(&mut state, 7, 4, Ok(true), &platform), Action::Continue);
    assert_eq!(handle_fchdir(&mut state, 7, 3, Ok(true), &platform), Action::Value(0));
    assert_eq!(state.known_cwd(7), Some(b"/workspace".to_vec()));
    assert_eq!(state.known_cwd(8), None);
}

#[test]
fn mapped_programs_are_injected_under_an_alias() {
    let platform = platform();
    let view = view();
    let run = |path: &str, flags: i32| {
        execute::handle(&view, &ok(path), &ok(path), 500, flags, &platform)
    };
    assert_eq!(
        run("/workspace/bin/tool", 0),
        Action::Execute {
            path: b"/src/bin/tool".to_vec(),
            raw: b"/workspace/bin/tool".to_vec(),
            address: 500,
        }
    );
    assert_eq!(run("/bin/sh", 0), Action::Continue);
    assert_eq!(run("/bin/sh", libc::AT_SYMLINK_NOFOLLOW), Action::Continue);
    assert_eq!(
        run("/workspace/bin/tool", libc::AT_SYMLINK_NOFOLLOW),
        Action::Fail(libc::ENOTSUP)
    );
    assert_eq!(
        execute::handle(&view, &ok(""), &Err(libc::ENOENT), 1, 0, &platform),
        Action::Continue
    );
    assert_eq!(
        execute::handle(&view, &ok("x"), &Err(libc::EBADF), 1, 0, &platform),
        Action::Fail(libc::EBADF)
    );

    assert_eq!(executable_alias(42), b"/dev/fd/42".to_vec());
    assert_eq!(executable_alias(-7), b"/dev/fd/-7".to_vec());
    assert_eq!(
        rewritten_argument(b"/workspace/t", 42, &platform),
        Ok(b"/dev/fd/42\0".to_vec())
    );
    assert_eq!(rewritten_argument(b"/dev/fd/1", 1, &platform), Ok(b"/dev/fd/1\0".to_vec()));
    assert_eq!(rewritten_argument(b"/a", 1, &platform), Err(libc::ENAMETOOLONG));

    let injected = proceed(9, run("/workspace/t", 0), Outcome::Descriptor(4), &platform);
    assert_eq!(
        injected,
        Action::InjectProgram {
            injection: Injection {
                id: 9,
                flags: 0,
                srcfd: 4,
                newfd: 0,
                newfd_flags: libc::O_CLOEXEC as u32,
            },
            raw: b"/workspace/t".to_vec(),
            address: 500,
        }
    );
    let renamed = proceed(9, injected, Outcome::Descriptor(42), &platform);
    assert_eq!(
        renamed,
        Action::Overwrite { bytes: b"/dev/fd/42\0".to_vec(), address: 500 }
    );
    assert_eq!(proceed(9, renamed, Outcome::Done(0), &platform), Action::Continue);
    let short = Action::InjectProgram {
        injection: Injection { id: 9, flags: 0, srcfd: 4, newfd: 0, newfd_flags: 0 },
        raw: b"/a".to_vec(),
        address: 500,
    };
    assert_eq!(
        proceed(9, short, Outcome::Descriptor(42), &platform),
        Action::Fail(libc::ENAMETOOLONG)
    );
}

#[test]
fn every_action_leads_to_an_answer() {
    let platform = platform();
    let path = || b"/src/a".to_vec();
    let written = proceed(
        1,
        Action::Stat { path: path(), flags: 0, output: 70 },
        Outcome::Bytes(vec![1, 2, 3]),
        &platform,
    );
    assert_eq!(written, Action::Write { bytes: vec![1, 2, 3], address: 70, value: 0 });
    assert_eq!(proceed(1, written, Outcome::Done(0), &platform), Action::Value(0));
    assert_eq!(
        proceed(
            1,
            Action::Statx { path: path(), flags: 0, mask: 0, output: 70 },
            Outcome::Bytes(vec![4]),
            &platform
        ),
        Action::Write { bytes: vec![4], address: 70, value: 0 }
    );
    let linked = proceed(
        1,
        Action::ReadLink { path: path(), buffer: 80, size: 3 },
        Outcome::Bytes(b"target".to_vec()),
        &platform,
    );
    assert_eq!(linked, Action::Write { bytes: b"tar".to_vec(), address: 80, value: 3 });
    assert_eq!(proceed(1, linked, Outcome::Done(0), &platform), Action::Value(3));
    for action in [
        Action::Truncate { path: path(), length: 1 },
        Action::ChangeMode { path: path(), mode: 1 },
        Action::ChangeOwner { path: path(), owner: 1, group: 1, flags: 0 },
        Action::SetTimes { path: path(), times: 0, flags: 0 },
    ] {
        assert_eq!(proceed(1, action, Outcome::Done(6), &platform), Action::Value(6));
    }
    for action in [
        Action::Access { path: path(), rights: 0, flags: 0 },
        Action::MakeDirectory { path: path(), mode: 1 },
        Action::RemoveDirectory { path: path() },
        Action::RemoveFile { path: path() },
        Action::Rename { from: path(), to: path() },
        Action::MakeLink { target: path(), path: path() },
    ] {
        assert_eq!(proceed(1, action, Outcome::Done(6), &platform), Action::Value(0));
    }
    assert_eq!(
        proceed(
            1,
            Action::Open { path: path(), flags: 0, mode: 0, descriptor_flags: 0 },
            Outcome::Failed(libc::EACCES),
            &platform
        ),
        Action::Fail(libc::EACCES)
    );
}

fn facts(guest: Result<Vec<u8>, i32>) -> Facts<Vec<u8>> {
    Facts {
        pid: 12,
        key: 10,
        raw: guest.clone(),
        guest,
        other: Err(libc::ENOENT),
        target: Err(libc::ENOENT),
        how: Err(libc::EFAULT),
        cwd: None,
        found: Err(libc::ENOENT),
    }
}

#[test]
fn calls_say_what_has_to_be_found_out() {
    let platform = platform();
    let nothing = Needs {
        path: None,
        other: None,
        target: None,
        how: None,
        directory: None,
        cwd: false,
        found: false,
    };
    let path = Some(PathArgument { dirfd: 5, address: 6 });
    let here = Some(PathArgument { dirfd: libc::AT_FDCWD, address: 6 });
    for (call, expected) in [
        (Call::Other, nothing),
        (Call::Open { dirfd: 5, path: 6, flags: 0, mode: 0 }, Needs { path, ..nothing }),
        (
            Call::OpenHow { dirfd: 5, path: 6, how: 7 },
            Needs { path, how: Some(7), ..nothing },
        ),
        (Call::Enter { path: 6 }, Needs { path: here, found: true, ..nothing }),
        (
            Call::EnterDescriptor { fd: 3 },
            Needs { directory: Some(3), found: true, ..nothing },
        ),
        (Call::List { fd: 3, buffer: 0, capacity: 0 }, nothing),
        (Call::WorkingDirectory { buffer: 0, size: 0 }, Needs { cwd: true, ..nothing }),
        (
            Call::ReadLink { dirfd: 5, path: 6, buffer: 0, size: 0 },
            Needs { path, cwd: true, ..nothing },
        ),
        (
            Call::MakeLink { target: 9, dirfd: 5, link: 6 },
            Needs { path, target: Some(9), ..nothing },
        ),
        (
            Call::Rename { from_dirfd: 5, from: 6, to_dirfd: 7, to: 8, variant: 0 },
            Needs { path, other: Some(PathArgument { dirfd: 7, address: 8 }), ..nothing },
        ),
        (
            Call::Rename { from_dirfd: 5, from: 6, to_dirfd: 7, to: 8, variant: 2 },
            nothing,
        ),
        (Call::Truncate { path: 6, length: 0 }, Needs { path: here, ..nothing }),
    ] {
        assert_eq!(needs(&call, &platform), expected);
    }
}

#[test]
fn calls_are_planned_from_what_was_found_out() {
    let platform = platform();
    let mut state = State::new(view());
    let order = ByteOrder::Little;
    let how = Call::OpenHow { dirfd: 0, path: 1, how: 2 };
    assert_eq!(
        plan(&mut state, &how, &facts(ok("/workspace/a")), order, &platform),
        Action::Fail(libc::EFAULT)
    );
    let mut known = facts(ok("/workspace/a"));
    known.how = Ok((libc::O_RDWR, 0o600));
    assert_eq!(
        plan(&mut state, &how, &known, order, &platform),
        Action::Open {
            path: b"/src/a".to_vec(),
            flags: libc::O_RDWR,
            mode: 0o600,
            descriptor_flags: 0,
        }
    );
    assert_eq!(opening_flags(&how, known.how), Some(libc::O_RDWR));
    assert_eq!(opening_flags(&how, Err(1)), None);
    assert_eq!(opening_flags(&Call::Other, known.how), None);

    let mut known = facts(ok("/workspace/d"));
    known.found = Ok(true);
    let enter = Call::Enter { path: 1 };
    assert_eq!(plan(&mut state, &enter, &known, order, &platform), Action::Value(0));
    assert_eq!(state.known_cwd(10), Some(b"/workspace/d".to_vec()));
    assert_eq!(state.known_cwd(12), None);

    state.remember_directory(10, 3, b"/workspace/e".to_vec(), vec![entry("a", 1)]);
    let enter = Call::EnterDescriptor { fd: 3 };
    assert_eq!(plan(&mut state, &enter, &known, order, &platform), Action::Value(0));
    assert_eq!(state.known_cwd(10), Some(b"/workspace/e".to_vec()));
    let list = Call::List { fd: 3, buffer: 5, capacity: 64 };
    assert!(matches!(
        plan(&mut state, &list, &known, order, &platform),
        Action::Write { address: 5, value: 24, .. }
    ));
    let other = Call::List { fd: 4, buffer: 5, capacity: 64 };
    assert_eq!(plan(&mut state, &other, &known, order, &platform), Action::Continue);

    let mut known = facts(ok("/workspace/a"));
    known.other = ok("/tmp/b");
    let rename = Call::Rename { from_dirfd: 0, from: 1, to_dirfd: 0, to: 2, variant: 0 };
    assert_eq!(plan(&mut state, &rename, &known, order, &platform), Action::Fail(EXDEV));

    let empty = facts(ok(""));
    let stat = Call::Stat { dirfd: 3, path: 1, output: 2, flags: libc::AT_EMPTY_PATH };
    assert_eq!(plan(&mut state, &stat, &empty, order, &platform), Action::Continue);
    assert_eq!(
        plan(&mut state, &Call::Other, &empty, order, &platform),
        Action::Continue
    );
}
