use pathshim::bind::{BindSpec, BindView, ENOTDIR, ENOTSUP};
use pathshim::cli::BindArg;
use pathshim::invocation::{
    bind_specs, configure_virtual_environment, cwd_created, diagnostic, exec, fallback_guest_cwd,
    guest_cwd, is_probe_child, passthrough_command, probe, probe_unavailable, probe_view, run,
    usage_error, view_unavailable, Ending, GuestCwd, Launch, RunOutcome,
};
use pathshim::linux::status::{ChildStatus, Farewell};

fn view(source: &str, destination: &str) -> BindView {
    BindView::open(vec![BindSpec {
        source: source.as_bytes().to_vec(),
        destination: destination.as_bytes().to_vec(),
    }])
    .unwrap()
}

#[test]
fn terminal_passthrough_restores_normal_command_inheritance() {
    let mut configured =
        Launch::new(b"/bin/sh".to_vec(), vec![b"-c".to_vec(), b"true".to_vec()]);
    configure_virtual_environment(&mut configured, b"/virtual/cwd");
    assert_eq!(configured.current_dir, Some(b"/virtual/cwd".to_vec()));
    assert_eq!(configured.pwd, Some(b"/virtual/cwd".to_vec()));

    let passthrough = passthrough_command(&configured);

    assert_eq!(passthrough.program, b"/bin/sh".to_vec());
    assert_eq!(passthrough.args, vec![b"-c".to_vec(), b"true".to_vec()]);
    assert_eq!(passthrough.current_dir, None);
    assert_eq!(passthrough.pwd, None);
}

#[test]
fn initial_guest_cwd_sets_pwd_and_resolves_relative_writes() {
    let view = view("/tmp/source", "/workspace");
    assert_eq!(
        guest_cwd(&view, b"/workspace", Ok(true)),
        GuestCwd::Use(b"/workspace".to_vec())
    );
    assert_eq!(view.resolve_read(b"/workspace/result.txt"), b"/tmp/source/result.txt".to_vec());
}

#[test]
fn missing_initial_guest_cwd_is_created_in_bind_source() {
    let view = view("/tmp/source", "/workspace");
    assert_eq!(
        guest_cwd(&view, b"/workspace/does-not-exist", Err(libc::ENOENT)),
        GuestCwd::Create {
            guest: b"/workspace/does-not-exist".to_vec(),
            physical: b"/tmp/source/does-not-exist".to_vec(),
        }
    );
    let line = cwd_created(false, b"/workspace/does-not-exist").unwrap();
    assert!(line.contains("created guest cwd path=/workspace/does-not-exist"));
}

#[test]
fn non_directory_initial_guest_cwd_falls_back_to_root() {
    let view = view("/tmp/source", "/workspace");
    assert_eq!(
        guest_cwd(&view, b"/workspace/not-a-directory", Ok(false)),
        GuestCwd::Fallback(ENOTDIR)
    );
    let (cwd, line) = fallback_guest_cwd(false, b"/workspace/not-a-directory", "Not a directory");
    assert_eq!(cwd, b"/".to_vec());
    assert!(line
        .unwrap()
        .contains("guest cwd unavailable requested=/workspace/not-a-directory fallback=/"));
}

#[test]
fn a_missing_cwd_outside_of_every_bind_is_not_created() {
    let view = view("/tmp/source", "/workspace");
    assert_eq!(
        guest_cwd(&view, b"/elsewhere", Err(libc::ENOENT)),
        GuestCwd::Fallback(ENOTSUP)
    );
    assert_eq!(guest_cwd(&view, b"/workspace/x", Err(13)), GuestCwd::Fallback(13));
}

#[test]
fn quiet_mode_keeps_pathshim_diagnostics_out_of_stderr() {
    assert_eq!(diagnostic(true, "anything"), None);
    assert_eq!(cwd_created(true, b"/a"), None);
    assert_eq!(view_unavailable(true, 1, "e"), None);
    assert_eq!(fallback_guest_cwd(true, b"/a", "e"), (b"/".to_vec(), None));
    assert_eq!(diagnostic(false, "anything"), Some("pathshim: anything".to_owned()));
}

#[test]
fn diagnostics_are_worded_exactly() {
    assert_eq!(
        view_unavailable(false, 12, "bad bind").unwrap(),
        "pathshim: collect mode=passthrough reason=bind-view-unavailable binds=12 error=bad bind"
    );
    assert_eq!(
        fallback_guest_cwd(false, b"/\xff", "bad").1.unwrap(),
        "pathshim: guest cwd unavailable requested=/\u{fffd} fallback=/ error=bad"
    );
    assert_eq!(
        exec(b"/bin/no\xfe", "missing"),
        "pathshim: cannot execute command `/bin/no\u{fffd}`: missing"
    );
    assert!(usage_error("bad").starts_with("pathshim: bad\n\nRun a command"));
}

#[test]
fn mappings_are_handed_on_in_order() {
    let binds = vec![
        BindArg { source: b"/a".to_vec(), destination: b"/b".to_vec() },
        BindArg { source: b"/c".to_vec(), destination: b"/d".to_vec() },
    ];
    assert_eq!(
        bind_specs(binds),
        vec![
            BindSpec { source: b"/a".to_vec(), destination: b"/b".to_vec() },
            BindSpec { source: b"/c".to_vec(), destination: b"/d".to_vec() },
        ]
    );
}

#[test]
fn the_probes_own_process_is_recognized() {
    assert!(is_probe_child(&vec![b"__pathshim_probe_child".to_vec()]));
    assert!(!is_probe_child(&vec![b"__pathshim_probe_child".to_vec(), b"x".to_vec()]));
    assert!(!is_probe_child(&vec![]));
}

#[test]
fn a_probe_reports_the_mode() {
    let report = probe_view(RunOutcome::Exited(ChildStatus::Exited(0)));
    assert_eq!((report.output.as_str(), report.code), ("bind-view", 0));
    assert_eq!(report.error, None);

    let report = probe_view(RunOutcome::Exited(ChildStatus::Exited(3)));
    assert_eq!((report.output.as_str(), report.code), ("passthrough", 1));
    assert_eq!(
        report.error.unwrap(),
        "pathshim: probe mode=passthrough reason=probe-child-failed status=exit-3"
    );

    let report = probe_view(RunOutcome::Exited(ChildStatus::Signaled(9)));
    assert!(report.error.unwrap().ends_with("status=signal-9"));

    let report = probe_view(RunOutcome::Failed("lost".to_owned()));
    assert!(report.error.unwrap().ends_with("reason=bind-view-probe-failed error=lost"));

    assert_eq!(probe_unavailable("why").code, 1);
}

#[test]
fn a_probe_ends_where_the_mappings_cannot_be_opened() {
    let report = probe(Err("duplicate".to_owned())).unwrap_err();
    assert_eq!(
        report.error.unwrap(),
        "pathshim: probe mode=passthrough reason=bind-view-unavailable error=duplicate"
    );
    assert_eq!(probe(Ok(view("/s", "/d"))).unwrap().projection_count(), 1);
}

#[test]
fn an_invocation_ends_as_its_command_did() {
    assert!(matches!(
        run(RunOutcome::Exited(ChildStatus::Exited(42)), false),
        Ending::Pass(Farewell::Exit(42))
    ));
    assert!(matches!(
        run(RunOutcome::Exited(ChildStatus::Signaled(15)), false),
        Ending::Pass(Farewell::Raise { signal: 15, otherwise: 143 })
    ));
    match run(RunOutcome::Unavailable("x error=y".to_owned()), false) {
        Ending::Passthrough { diagnostic } => assert_eq!(
            diagnostic.unwrap(),
            "pathshim: collect mode=passthrough reason=x error=y"
        ),
        _ => panic!("expected passthrough"),
    }
    assert!(matches!(
        run(RunOutcome::Unavailable("x".to_owned()), true),
        Ending::Passthrough { diagnostic: None }
    ));
    match run(RunOutcome::Failed("gone".to_owned()), true) {
        Ending::Fail { line } => {
            assert_eq!(line, "pathshim: bind view failed after command startup: gone")
        }
        _ => panic!("expected failure"),
    }
}
