use pathshim::bind::{BindSpec, BindView};
use pathshim::directory::DirEntry;
use pathshim::linux::listing::{dirent_record, OpenDirectory};
use pathshim::linux::platform::{Legacy, Platform};
use pathshim::linux::process::{is_own_proc_cwd, process_key, process_parent};
use pathshim::linux::remote::{
    anchor, descriptor_base, directory_fd_matches, normalize, open_how, process_cwd, resolve_path,
    rewrite_path, write_memory, Anchor, Base, PathReader, Piece, Progress,
};
use pathshim::linux::setup::{
    after_notification, descriptor_rights, probe_result, read_i32_timeout, receive_setup,
    send_setup_error, supervise, transferred, write_i32, Control, Polled, ProbeError, ProbeTurn,
    Setup, SetupError, Turn,
};
use pathshim::linux::startup::{
    child_main, Attempt, ChildOrder, ChildStage, Cleanup, Event, Failure, Order, Stage,
};
use pathshim::linux::state::{CwdSearch, CwdStep, State};
use pathshim::linux::status::{
    child_status, display_status, exit_with_status, forward_signal, wait_for_child, ChildStatus,
    Farewell, Handler, SignalForwarding, Wait,
};
use pathshim::number::{
    from_memory, native_order, order_of, render_count, render_decimal, render_digits,
    render_signed, to_memory, to_signed, to_unsigned, ByteOrder,
};

fn platform() -> Platform {
    Platform::current(Legacy {
        open: -1,
        access: -1,
        mkdir: -1,
        unlink: -1,
        rmdir: -1,
        rename: -1,
        readlink: -1,
        symlink: -1,
        chmod: -1,
        chown: -1,
        lchown: -1,
    })
}

fn view() -> BindView {
    BindView::open(vec![BindSpec {
        source: b"/src".to_vec(),
        destination: b"/workspace".to_vec(),
    }])
    .unwrap()
}

fn text(value: &str) -> Option<String> {
    Some(value.to_owned())
}

#[test]
fn statuses_tell_leader_and_parent() {
    let status = text("Name:\tsh\nUmask:\t0022\nTgid:\t120\nNgid:\t0\nPid:\t121\nPPid:\t1\n");
    assert_eq!(process_key(&status, 121), 120);
    assert_eq!(process_parent(&status), Some(1));
    assert_eq!(process_key(&None, 121), 121);
    assert_eq!(process_parent(&None), None);
    assert_eq!(process_parent(&text("Name:\tsh\n")), None);
    assert_eq!(process_key(&text("Tgid:\tx\nTgid:\t5\n"), 9), 9);
    assert_eq!(process_key(&text("Tgid:\u{a0}+5\u{3000}\r\n"), 9), 5);
    assert_eq!(process_key(&text(" Tgid:\t5\n"), 9), 9);
    assert_eq!(process_key(&text("Tgid:\t4294967296\n"), 9), 9);
    assert_eq!(process_key(&text("Tgid:\t4294967295"), 9), 4294967295);
    assert_eq!(process_key(&text("Tgid:\t-1\n"), 9), 9);
    assert_eq!(process_key(&text("Tgid:\t\n"), 9), 9);
}

#[test]
fn own_working_directory_links_are_recognized() {
    assert!(is_own_proc_cwd(b"/proc/self/cwd", 5, 4));
    assert!(is_own_proc_cwd(b"/proc//thread-self/./cwd/", 5, 4));
    assert!(is_own_proc_cwd(b"/proc/5/cwd", 5, 4));
    assert!(is_own_proc_cwd(b"/proc/4/cwd", 5, 4));
    for path in ["/proc/6/cwd", "/proc/05/cwd", "/proc/+5/cwd", "proc/self/cwd", "/proc/self",
        "/proc/self/cwd/x", "/proc/self/exe"]
    {
        assert!(!is_own_proc_cwd(path.as_bytes(), 5, 4));
    }
}

#[test]
fn paths_are_read_in_pieces_up_to_a_zero() {
    let platform = platform();
    assert_eq!(PathReader::read_path(0, &platform).unwrap_err(), libc::EFAULT);
    let reader = PathReader::read_path(1000, &platform).unwrap();
    assert_eq!(reader.piece(), Piece { address: 1000, length: 256 });
    let reader = match reader.accept(b"/usr/", &platform) {
        Progress::More(reader) => reader,
        _ => panic!("expected more"),
    };
    assert_eq!(reader.piece(), Piece { address: 1005, length: 256 });
    match reader.accept(b"bin\0rest\0", &platform) {
        Progress::Done(path) => assert_eq!(path, b"/usr/bin".to_vec()),
        _ => panic!("expected a path"),
    }
}

#[test]
fn paths_without_an_end_are_too_long() {
    let platform = platform();
    let mut reader = PathReader::read_path(u64::MAX - 255, &platform).unwrap();
    let chunk = vec![b'a'; 256];
    for turn in 0..15u64 {
        assert_eq!(
            reader.piece(),
            Piece { address: (u64::MAX - 255).wrapping_add(256 * turn), length: 256 }
        );
        reader = match reader.accept(&chunk, &platform) {
            Progress::More(reader) => reader,
            _ => panic!("expected more"),
        };
    }
    reader = match reader.accept(&chunk[..250], &platform) {
        Progress::More(reader) => reader,
        _ => panic!("expected more"),
    };
    assert_eq!(reader.piece().length, 6);
    match reader.accept(&chunk[..6], &platform) {
        Progress::Failed(error) => assert_eq!(error, libc::ENAMETOOLONG),
        _ => panic!("expected failure"),
    }
}

#[test]
fn replacements_may_not_be_longer() {
    let platform = platform();
    assert_eq!(rewrite_path(b"/abc", b"/x", &platform), Ok(b"/x\0".to_vec()));
    assert_eq!(rewrite_path(b"/abc", b"/xyz", &platform), Ok(b"/xyz\0".to_vec()));
    assert_eq!(rewrite_path(b"/abc", b"/wxyz", &platform), Err(libc::ENAMETOOLONG));
}

#[test]
fn short_writes_fail() {
    let platform = platform();
    assert_eq!(write_memory(Ok(4), 4, &platform), Ok(()));
    assert_eq!(write_memory(Ok(3), 4, &platform), Err(libc::EIO));
    assert_eq!(write_memory(Err(libc::EFAULT), 4, &platform), Err(libc::EFAULT));
}

#[test]
fn opening_structures_are_read() {
    let mut how = vec![0u8; 24];
    how[0] = 2;
    how[4] = 9;
    how[8] = 0xa4;
    how[9] = 1;
    assert_eq!(open_how(ByteOrder::Little, &how), (2, 0o644));
    let mut how = vec![0u8; 24];
    how[7] = 2;
    how[14] = 1;
    how[15] = 0xa4;
    assert_eq!(open_how(ByteOrder::Big, &how), (2, 0o644));
    assert_eq!(open_how(ByteOrder::Little, &vec![0xff; 24]), (-1, u32::MAX));
}

#[test]
fn path_arguments_are_anchored() {
    let platform = platform();
    assert_eq!(anchor(b"/a", 5, &platform), Anchor::Root);
    assert_eq!(anchor(b"", 5, &platform), Anchor::Root);
    assert_eq!(anchor(b"a", libc::AT_FDCWD, &platform), Anchor::WorkingDirectory);
    assert_eq!(anchor(b"a", 5, &platform), Anchor::Descriptor);
}

#[test]
fn path_arguments_become_guest_paths() {
    let platform = platform();
    let view = view();
    let resolve = |path: &str, base: Base<Vec<u8>>| {
        resolve_path(&view, path.as_bytes(), &base, &platform)
    };
    let guest = || Base::Guest(b"/workspace/d".to_vec());
    assert_eq!(resolve("", guest()), Err(libc::ENOENT));
    assert_eq!(resolve("/a/../b", guest()), Ok(b"/b".to_vec()));
    assert_eq!(resolve("../x", guest()), Ok(b"/workspace/x".to_vec()));
    assert_eq!(resolve("x", Base::Host(b"/src/e".to_vec())), Ok(b"/workspace/e/x".to_vec()));
    assert_eq!(resolve("x", Base::Host(b"/other".to_vec())), Ok(b"/other/x".to_vec()));
    assert_eq!(resolve("x", Base::Missing(libc::EBADF)), Err(libc::EBADF));
    assert_eq!(normalize(b"a/b/.."), b"/a".to_vec());
}

#[test]
fn relative_paths_start_from_what_is_known() {
    match process_cwd(Some(b"/g".to_vec()), Ok(b"/h".to_vec())) {
        Base::Guest(path) => assert_eq!(path, b"/g".to_vec()),
        _ => panic!("expected a guest directory"),
    }
    match process_cwd(None, Err(2)) {
        Base::Host(path) => assert_eq!(path, b"/".to_vec()),
        _ => panic!("expected a physical directory"),
    }
    match descriptor_base(None, Ok(b"/h".to_vec())) {
        Base::Host(path) => assert_eq!(path, b"/h".to_vec()),
        _ => panic!("expected a physical directory"),
    }
    match descriptor_base(None, Err(9)) {
        Base::Missing(error) => assert_eq!(error, 9),
        _ => panic!("expected an error"),
    }
    match descriptor_base(Some(b"/g".to_vec()), Err(9)) {
        Base::Guest(path) => assert_eq!(path, b"/g".to_vec()),
        _ => panic!("expected a guest directory"),
    }
    assert!(directory_fd_matches(Some(b"/src/d"), b"/src//d/"));
    assert!(!directory_fd_matches(Some(b"/src/e"), b"/src/d"));
    assert!(!directory_fd_matches(None, b"/src/d"));
}

#[test]
fn cwd_namespace_matches_common_proot_process_semantics() {
    let mut state = State::new(view());
    state.remember_cwd(10, b"/workspace/start".to_vec());
    let search = CwdSearch::virtual_cwd(12);
    match search.look(&state) {
        CwdStep::Ascend(process) => assert_eq!(process, 12),
        _ => panic!("expected to go up"),
    }
    assert_eq!(search.above(Some(11)), Some(11));
    assert_eq!(search.above(Some(0)), None);
    assert_eq!(search.above(Some(12)), None);
    assert_eq!(search.above(None), None);
    match search.ascend(10).look(&state) {
        CwdStep::Found(path) => assert_eq!(path, b"/workspace/start".to_vec()),
        _ => panic!("expected a directory"),
    }
    state.remember_cwd(12, b"/workspace/thread".to_vec());
    match search.look(&state) {
        CwdStep::Found(path) => assert_eq!(path, b"/workspace/thread".to_vec()),
        _ => panic!("expected a directory"),
    }
    assert_eq!(state.known_cwd(10), Some(b"/workspace/start".to_vec()));

    let mut far = CwdSearch::virtual_cwd(99);
    for process in 100..116 {
        assert!(matches!(far.look(&state), CwdStep::Ascend(_)));
        far = far.ascend(process);
    }
    assert!(matches!(far.look(&state), CwdStep::Absent));
}

#[test]
fn records_are_laid_out_for_the_kernel_interface() {
    let entry = DirEntry { name: b"name".to_vec(), inode: 0x0102, file_type: 4 };
    let record = dirent_record(&entry, 3, ByteOrder::Little);
    assert_eq!(
        record,
        vec![2, 1, 0, 0, 0, 0, 0, 0, 3, 0, 0, 0, 0, 0, 0, 0, 24, 0, 4, b'n', b'a', b'm', b'e', 0]
    );
    let record = dirent_record(&entry, 3, ByteOrder::Big);
    assert_eq!(&record[..8], &[0, 0, 0, 0, 0, 0, 1, 2]);
    assert_eq!(&record[16..18], &[0, 24]);
    let longer = DirEntry { name: b"namex".to_vec(), inode: 1, file_type: 8 };
    assert_eq!(dirent_record(&longer, 1, ByteOrder::Little).len(), 32);
}

#[test]
fn listings_are_delivered_once() {
    let entries = || {
        vec![b"a".to_vec(), b"b".to_vec(), b"c".to_vec()]
            .into_iter()
            .map(|name| DirEntry { name, inode: 1, file_type: 8 })
            .collect::<Vec<DirEntry>>()
    };
    let order = ByteOrder::Little;
    let mut whole = OpenDirectory::new(b"/d".to_vec(), entries());
    let all = whole.deliver(order, 1000).unwrap();
    assert_eq!(all.len(), 72);
    let mut parts = OpenDirectory::new(b"/d".to_vec(), entries());
    assert_eq!(parts.deliver(order, 23), None);
    let mut collected = parts.deliver(order, 50).unwrap();
    assert_eq!(collected.len(), 48);
    collected.extend(parts.deliver(order, 24).unwrap());
    assert_eq!(collected, all);
    assert_eq!(parts.deliver(order, 24), Some(vec![]));
    assert_eq!(parts.path(), b"/d");
}

#[test]
fn setup_messages_are_read_back() {
    let rights = descriptor_rights();
    assert_eq!((rights.level, rights.kind), (libc::SOL_SOCKET, libc::SCM_RIGHTS));
    for order in [ByteOrder::Little, ByteOrder::Big] {
        for error in [0, 38, -1, i32::MAX, i32::MIN] {
            let payload = send_setup_error(error, order);
            assert_eq!(
                receive_setup(Ok(5), &payload, None, &rights, order),
                Ok(Setup::Unavailable(error))
            );
        }
    }
    assert_eq!(send_setup_error(38, ByteOrder::Little), vec![0, 38, 0, 0, 0]);
    let control = Some(Control { level: libc::SOL_SOCKET, kind: libc::SCM_RIGHTS, fd: 6 });
    let ready = [1u8, 0, 0, 0, 0];
    let order = native_order();
    assert_eq!(receive_setup(Ok(1), &ready, control, &rights, order), Ok(Setup::Ready(6)));
    assert_eq!(
        receive_setup(Ok(1), &ready, None, &rights, order),
        Err(SetupError::MissingListener)
    );
    let other = Some(Control { level: libc::SOL_SOCKET, kind: 77, fd: 6 });
    assert_eq!(
        receive_setup(Ok(1), &ready, other, &rights, order),
        Err(SetupError::MissingListener)
    );
    assert_eq!(
        receive_setup(Ok(0), &ready, control, &rights, order),
        Err(SetupError::Malformed)
    );
    assert_eq!(
        receive_setup(Ok(5), &ready, control, &rights, order),
        Err(SetupError::Malformed)
    );
    assert_eq!(
        receive_setup(Err(104), &ready, control, &rights, order),
        Err(SetupError::Os(104))
    );
    assert_eq!(SetupError::Os(1).message(), None);
    assert_eq!(
        SetupError::Malformed.message(),
        Some("invalid filesystem listener setup response")
    );
    assert_eq!(SetupError::MissingListener.message(), Some("listener fd missing"));
}

#[test]
fn the_result_of_the_probe_is_awaited() {
    let ready = |count: i32, events: i16| Polled::Ready { count, events };
    assert_eq!(read_i32_timeout(Polled::Interrupted), ProbeTurn::Again);
    assert_eq!(read_i32_timeout(Polled::Failed(9)), ProbeTurn::Fail(ProbeError::Os(9)));
    assert_eq!(read_i32_timeout(ready(0, 0)), ProbeTurn::Fail(ProbeError::TimedOut));
    assert_eq!(read_i32_timeout(ready(1, libc::POLLIN | libc::POLLHUP)), ProbeTurn::Receive);
    assert_eq!(read_i32_timeout(ready(1, libc::POLLHUP)), ProbeTurn::Fail(ProbeError::Stopped));
    let order = native_order();
    let bytes = write_i32(-13, order);
    assert_eq!(probe_result(Ok(4), &bytes, order), Ok(-13));
    assert_eq!(probe_result(Ok(3), &bytes, order), Err(ProbeError::Missing));
    assert_eq!(probe_result(Err(104), &bytes, order), Err(ProbeError::Missing));
    assert_eq!(ProbeError::Os(1).message(), None);
    assert_eq!(ProbeError::TimedOut.message(), Some("filesystem capability probe timed out"));
    assert_eq!(
        ProbeError::Missing.message(),
        Some("filesystem capability probe result missing")
    );
    assert_eq!(
        ProbeError::Stopped.message(),
        Some("filesystem capability probe process stopped")
    );
    assert!(transferred(Ok(1), 1));
    assert!(!transferred(Ok(0), 1));
    assert!(!transferred(Err(32), 1));
}

#[test]
fn the_supervisor_goes_on_until_it_is_stopped() {
    let ready = |count: i32, events: i16| Polled::Ready { count, events };
    assert_eq!(supervise(Polled::Interrupted), Turn::Again);
    assert_eq!(supervise(Polled::Failed(9)), Turn::Fail(9));
    assert_eq!(supervise(ready(0, 0)), Turn::Again);
    assert_eq!(supervise(ready(1, libc::POLLIN)), Turn::Receive);
    assert_eq!(supervise(ready(1, libc::POLLPRI)), Turn::Again);
    for event in [libc::POLLHUP, libc::POLLERR, libc::POLLNVAL] {
        assert_eq!(supervise(ready(1, libc::POLLIN | event)), Turn::Stop);
    }
    assert_eq!(after_notification(Ok(()), libc::ENOENT), Turn::Again);
    assert_eq!(after_notification(Err(libc::ENOENT), libc::ENOENT), Turn::Again);
    assert_eq!(after_notification(Err(5), libc::ENOENT), Turn::Fail(5));
}

#[test]
fn an_attempt_goes_through_its_steps() {
    let mut attempt = Attempt::run(2, false);
    assert!(matches!(attempt.advance(Event::Done), Order::Connect));
    assert!(matches!(attempt.advance(Event::Done), Order::Fork));
    assert!(matches!(attempt.advance(Event::Done), Order::Receive));
    assert!(matches!(attempt.advance(Event::Done), Order::Supervise));
    assert!(matches!(attempt.advance(Event::Done), Order::Forward));
    assert!(matches!(attempt.advance(Event::Done), Order::Start));
    assert!(matches!(attempt.advance(Event::Done), Order::Probe));
    match attempt.advance(Event::Probed { code: 0, error: String::new() }) {
        Order::Finish { announcement } => assert_eq!(
            announcement.unwrap(),
            "pathshim: collect mode=bind-view projections=2 features=replace,shared-source"
        ),
        _ => panic!("expected the command to be let go"),
    }
    assert!(matches!(attempt.advance(Event::Done), Order::Wait));
    match attempt.advance(Event::Ended(ChildStatus::Exited(3))) {
        Order::Exit { status, cleanup } => {
            assert_eq!(status, ChildStatus::Exited(3));
            assert!(cleanup.release_signals && cleanup.stop_supervisor);
            assert!(!cleanup.kill && !cleanup.wait);
        }
        _ => panic!("expected an end"),
    }
    assert_eq!(attempt.stage, Stage::Over);
}

fn given_up(stage: Stage, event: Event<String>) -> (String, Cleanup) {
    let mut attempt = Attempt { stage, projections: 1, quiet: true };
    match attempt.advance(event) {
        Order::GiveUp { reason, cleanup } => (reason, cleanup),
        _ => panic!("expected to give up"),
    }
}

#[test]
fn failed_steps_are_undone() {
    let undone = |release_signals: bool, kill: bool, wait: bool, stop_supervisor: bool| Cleanup {
        release_signals,
        kill,
        wait,
        stop_supervisor,
    };
    let nothing = undone(false, false, false, false);
    let child = undone(false, true, true, false);
    let supervisor = undone(false, true, true, true);
    let everything = undone(true, true, true, true);
    for (stage, cause, cleanup) in [
        (Stage::Reopening, "bind-view-setup-failed", nothing),
        (Stage::Connecting, "bind-view-socket-unavailable", nothing),
        (Stage::Forking, "bind-view-fork-unavailable", nothing),
        (Stage::Receiving, "bind-view-listener-handshake-failed", child),
        (Stage::Supervising, "bind-view-supervisor-unavailable", child),
        (Stage::Forwarding, "signal-forwarding-unavailable", supervisor),
        (Stage::Starting, "bind-view-probe-start-failed", everything),
        (Stage::Probing, "bind-view-probe-unavailable", everything),
        (Stage::Finishing, "bind-view-probe-finish-failed", everything),
    ] {
        let (reason, done) = given_up(stage, Event::Failed("bad".to_owned()));
        assert_eq!(reason, format!("{cause} error=bad"));
        assert_eq!(done, cleanup);
    }
    let (reason, done) = given_up(Stage::Receiving, Event::Unavailable("no".to_owned()));
    assert_eq!(reason, "bind-view-unavailable error=no");
    assert_eq!(done, undone(false, false, true, false));
    let (reason, done) =
        given_up(Stage::Probing, Event::Probed { code: 2, error: "missing".to_owned() });
    assert_eq!(reason, "bind-view-probe-failed error=missing");
    assert_eq!(done, everything);
}

#[test]
fn a_started_command_is_not_run_again() {
    let mut attempt = Attempt { stage: Stage::Waiting, projections: 1, quiet: true };
    match attempt.advance(Event::Failed("lost".to_owned())) {
        Order::Abort { error } => assert_eq!(error, "lost"),
        _ => panic!("expected to abort"),
    }
    let mut attempt = Attempt { stage: Stage::Probing, projections: 1, quiet: true };
    assert!(matches!(
        attempt.advance(Event::Probed { code: 0, error: String::new() }),
        Order::Finish { announcement: None }
    ));
}

#[test]
fn the_commands_process_goes_through_its_steps() {
    let next = |stage: ChildStage| child_main(stage, Ok(()), "sh", libc::EIO);
    assert!(matches!(next(ChildStage::Installing), ChildOrder::Send));
    assert!(matches!(next(ChildStage::Sending), ChildOrder::Synchronize));
    assert!(matches!(next(ChildStage::Synchronizing), ChildOrder::Probe));
    assert!(matches!(next(ChildStage::Probing), ChildOrder::Report));
    assert!(matches!(next(ChildStage::Reporting), ChildOrder::Finish));
    assert!(matches!(next(ChildStage::Finishing), ChildOrder::Execute));

    let failed = |stage: ChildStage, code: Option<i32>| {
        child_main(stage, Err(Failure { code, error: "bad".to_owned() }), "sh", libc::EIO)
    };
    assert!(matches!(failed(ChildStage::Installing, Some(38)), ChildOrder::Refuse(38)));
    assert!(matches!(failed(ChildStage::Installing, None), ChildOrder::Refuse(5)));
    assert!(matches!(failed(ChildStage::Probing, Some(2)), ChildOrder::ReportFailure(2)));
    for (stage, message) in [
        (ChildStage::Sending, "pathshim: cannot pass filesystem listener: bad"),
        (ChildStage::Synchronizing, "pathshim: cannot synchronize filesystem supervisor: bad"),
        (ChildStage::Reporting, "pathshim: cannot report filesystem probe: bad"),
        (ChildStage::Finishing, "pathshim: cannot finish filesystem probe: bad"),
        (ChildStage::Executing, "pathshim: cannot execute command `sh`: bad"),
    ] {
        match failed(stage, Some(1)) {
            ChildOrder::Die(said) => assert_eq!(said, message),
            _ => panic!("expected an end"),
        }
    }
}

#[test]
fn preserves_signal_terminal_status() {
    assert_eq!(child_status(libc::SIGTERM), Some(ChildStatus::Signaled(libc::SIGTERM)));
    assert_eq!(
        exit_with_status(ChildStatus::Signaled(libc::SIGTERM)),
        Farewell::Raise { signal: libc::SIGTERM, otherwise: 143 }
    );
    assert_eq!(exit_with_status(ChildStatus::Exited(143)), Farewell::Exit(143));
}

#[test]
fn linux_bind_inherits_callers_process_group_and_forwards_termination_signal() {
    assert_eq!(child_status(42 << 8), Some(ChildStatus::Exited(42)));
    assert!(forward_signal(1));
    assert!(!forward_signal(0));
    let mut forwarding = SignalForwarding::install();
    let mut installed = Vec::new();
    while let Handler::Install(signal) = forwarding.pending() {
        installed.push(signal);
        forwarding.advance();
    }
    assert_eq!(installed, vec![libc::SIGTERM, libc::SIGINT, libc::SIGHUP, libc::SIGQUIT]);
    assert_eq!(forwarding.pending(), Handler::Finished);
    let mut restored = Vec::new();
    while let Handler::Restore(signal) = forwarding.take_back() {
        restored.push(signal);
    }
    restored.reverse();
    assert_eq!(restored, installed);
}

#[test]
fn a_failed_installation_is_taken_back() {
    let mut forwarding = SignalForwarding::install();
    forwarding.advance();
    assert_eq!(forwarding.pending(), Handler::Install(libc::SIGINT));
    assert_eq!(forwarding.take_back(), Handler::Restore(libc::SIGTERM));
    assert_eq!(forwarding.take_back(), Handler::Finished);
}

#[test]
fn waiting_goes_on_until_the_end() {
    assert_eq!(wait_for_child(Ok(0)), Wait::Ended(ChildStatus::Exited(0)));
    assert_eq!(wait_for_child(Ok(0xff00)), Wait::Ended(ChildStatus::Exited(255)));
    assert_eq!(wait_for_child(Ok(0x137f)), Wait::Again);
    assert_eq!(wait_for_child(Ok(0x8b)), Wait::Ended(ChildStatus::Signaled(11)));
    assert_eq!(wait_for_child(Err(true)), Wait::Again);
    assert_eq!(wait_for_child(Err(false)), Wait::Failed);
    assert_eq!(display_status(ChildStatus::Exited(-1)), "exit--1");
    assert_eq!(display_status(ChildStatus::Signaled(15)), "signal-15");
}

#[test]
fn numbers_are_rendered_and_read_back() {
    assert_eq!(render_digits(0), b"0".to_vec());
    assert_eq!(render_digits(u64::MAX), b"18446744073709551615".to_vec());
    assert_eq!(render_signed(i32::MIN), b"-2147483648".to_vec());
    assert_eq!(render_decimal(-120), "-120");
    assert_eq!(render_decimal(9), "9");
    assert_eq!(render_count(1234567890), "1234567890");
    assert_eq!(to_memory(ByteOrder::Little, 0x0102_0304, 4), vec![4, 3, 2, 1]);
    assert_eq!(to_memory(ByteOrder::Big, 0x0102_0304, 4), vec![1, 2, 3, 4]);
    assert_eq!(from_memory(ByteOrder::Big, &[1, 2, 3, 4]), 0x0102_0304);
    assert_eq!(from_memory(ByteOrder::Little, &[0xff; 8]), u64::MAX);
    assert_eq!(to_unsigned(-1), u32::MAX);
    assert_eq!(to_signed(0x8000_0000), i32::MIN);
    assert_eq!(order_of(1), ByteOrder::Little);
    assert_eq!(order_of(256), ByteOrder::Big);
    assert_eq!(to_memory(native_order(), 0x0102_0304, 4), 0x0102_0304u32.to_ne_bytes().to_vec());
}
