use pathshim::cli::{parse, parse_bind, BindArg, ParseResult, ProbeArgs, RunArgs, HELP};
use pathshim::invocation::{probe_view, usage_error, RunOutcome, USAGE_EXIT};

fn os_args(values: &[&str]) -> Vec<Vec<u8>> {
    values.iter().map(|value| value.as_bytes().to_vec()).collect()
}

fn bind(source: &str, destination: &str) -> BindArg {
    BindArg { source: source.as_bytes().to_vec(), destination: destination.as_bytes().to_vec() }
}

fn run_args(values: &[&str]) -> RunArgs {
    match parse(&os_args(values)).unwrap() {
        ParseResult::Run(args) => args,
        _ => panic!("expected run arguments"),
    }
}

#[test]
fn parses_repeatable_binds() {
    let result = parse(&os_args(&[
        "--bind",
        "/upper/one:/guest/one",
        "--bind=/upper/two:/guest/two",
        "true",
    ]))
    .unwrap();

    assert_eq!(
        result,
        ParseResult::Run(RunArgs {
            binds: vec![bind("/upper/one", "/guest/one"), bind("/upper/two", "/guest/two")],
            cwd: b"/".to_vec(),
            quiet: false,
            command: b"true".to_vec(),
            args: Vec::new(),
        })
    );
}

#[test]
fn accepts_command_without_separator() {
    let result =
        parse(&os_args(&["--bind=/upper:/guest", "/bin/sh"])).expect("command should parse");

    assert!(matches!(result, ParseResult::Run(_)));
}

#[test]
fn the_separator_may_be_left_out() {
    for line in [&["true"][..], &["", "--quiet"], &["probe", "--", "-h"], &[]] {
        let without = [&["--bind=/a:/b", "--cwd", "/b"][..], line].concat();
        let with = [&["--bind=/a:/b", "--cwd", "/b", "--"][..], line].concat();
        assert_eq!(parse(&os_args(&with)), parse(&os_args(&without)));
    }
}

#[test]
fn options_keep_their_order_up_to_the_command() {
    let args = run_args(&[
        "-b", "/a:/b", "--cwd=/x", "--bind=/c:/d", "-w", "/y", "true", "--quiet", "-b", "/e:/f",
    ]);
    assert_eq!(args.binds, vec![bind("/a", "/b"), bind("/c", "/d")]);
    assert_eq!(args.cwd, b"/y".to_vec());
    assert!(!args.quiet);
    assert_eq!(args.command, b"true".to_vec());
    assert_eq!(args.args, os_args(&["--quiet", "-b", "/e:/f"]));
    assert!(run_args(&["-b", "/a:/b", "--quiet", "--", "true"]).quiet);
    assert!(!run_args(&["-b", "/a:/b", "--cwd", "--quiet", "true"]).quiet);
}

#[test]
fn parses_guest_cwd_aliases() {
    for option in ["-w", "--cwd", "--pwd"] {
        let args = run_args(&["--bind", "/upper:/workspace", option, "/workspace", "true"]);
        assert_eq!(args.cwd, b"/workspace".to_vec());
    }

    let args = run_args(&["--bind=/upper:/workspace", "--cwd=/workspace", "true"]);
    assert_eq!(args.cwd, b"/workspace".to_vec());
}

#[test]
fn parses_version_options() {
    for option in ["-V", "--version"] {
        assert_eq!(parse(&os_args(&[option])).unwrap(), ParseResult::Version);
    }
}

#[test]
fn rejects_missing_filesystem_view() {
    let error = parse(&os_args(&["--", "/bin/sh"])).unwrap_err();

    assert!(error.contains("--bind"));
}

#[test]
fn rejects_invalid_bind_destination() {
    let error = parse(&os_args(&["--bind", "/upper:relative", "true"])).unwrap_err();

    assert!(error.contains("absolute guest path"));
}

#[test]
fn rejects_missing_command() {
    let error = parse(&os_args(&["--bind", "/upper:/workspace"])).unwrap_err();

    assert!(error.contains("command"));
}

#[test]
fn parses_quiet_mode() {
    let args = run_args(&["--quiet", "--bind", "/upper:/workspace", "true"]);
    assert!(args.quiet);
}

#[test]
fn invalid_probe_invocation_exits_two() {
    let error = parse(&os_args(&["probe"])).unwrap_err();

    assert_eq!(USAGE_EXIT, 2);
    assert!(usage_error(&error).contains("probe requires at least one"));
}

#[test]
fn probe_reports_passthrough_off_linux() {
    let report = probe_view(RunOutcome::Unavailable("bind-view-requires-linux".to_owned()));

    assert_eq!(report.code, 1);
    assert_eq!(report.output, "passthrough");
    assert!(report.error.unwrap().contains("bind-view-requires-linux"));
}

#[test]
fn version_options_print_the_package_version() {
    for option in ["-V", "--version"] {
        assert_eq!(parse(&os_args(&[option])), Ok(ParseResult::Version));
        assert_eq!(parse(&os_args(&["-b", "/a:/b", option, "x"])), Ok(ParseResult::Version));
    }
}

#[test]
fn probe_takes_binds_in_both_forms() {
    assert_eq!(
        parse(&os_args(&["probe", "--bind", "/a:/b", "-b", "/c:/d", "--bind=/e:/f"])),
        Ok(ParseResult::Probe(ProbeArgs {
            binds: vec![bind("/a", "/b"), bind("/c", "/d"), bind("/e", "/f")],
        }))
    );
    assert_eq!(parse(&os_args(&["probe", "--help"])), Ok(ParseResult::Help));
    assert_eq!(
        parse(&os_args(&["probe", "-b"])).unwrap_err(),
        "`-b` requires SOURCE:DEST"
    );
    assert_eq!(
        parse(&os_args(&["probe", "-b", "/a:/b", "true"])).unwrap_err(),
        "unknown probe argument `true`"
    );
    assert!(parse(&os_args(&["probe", "--bind=/a"])).is_err());
}

#[test]
fn probe_is_a_command_after_options() {
    let args = run_args(&["-b", "/a:/b", "probe", "--bind"]);
    assert_eq!(args.command, b"probe".to_vec());
    assert_eq!(args.args, os_args(&["--bind"]));
}

#[test]
fn the_command_line_is_not_read_as_options() {
    let args = run_args(&["-b", "/a:/b", "--", "--quiet", "-h", "--bind"]);
    assert_eq!(args.command, b"--quiet".to_vec());
    assert_eq!(args.args, os_args(&["-h", "--bind"]));
    assert!(!args.quiet);

    let args = run_args(&["-b", "/a:/b", "sh", "-c", "--", "--quiet"]);
    assert_eq!(args.args, os_args(&["-c", "--", "--quiet"]));
    assert!(!args.quiet);
}

#[test]
fn help_is_asked_for_before_the_command() {
    for option in ["-h", "--help"] {
        assert_eq!(parse(&os_args(&["--quiet", option, "x"])), Ok(ParseResult::Help));
    }
    assert!(HELP.starts_with("Run a command with best-effort bind path mappings.\n\nUsage:\n"));
}

#[test]
fn the_last_cwd_wins() {
    let args = run_args(&["-b", "/a:/b", "-w", "/x", "--pwd=/y", "--cwd", "/z", "c"]);
    assert_eq!(args.cwd, b"/z".to_vec());
}

#[test]
fn options_need_their_values() {
    for (given, message) in [
        (vec!["-b"], "`-b` requires SOURCE:DEST"),
        (vec!["--bind"], "`--bind` requires SOURCE:DEST"),
        (vec!["-w"], "`-w` requires a path"),
        (vec!["--pwd"], "`--pwd` requires a path"),
        (vec!["--cwd="], "`--cwd` requires a path"),
        (vec!["--pwd="], "`--cwd` requires a path"),
        (vec!["--other"], "unknown option `--other`"),
        (vec!["-"], "unknown option `-`"),
        (vec![], "missing filesystem view: provide `--bind SOURCE:DEST`"),
        (vec!["-b", "/a:/b", "--"], "missing command"),
    ] {
        assert_eq!(parse(&os_args(&given)).unwrap_err(), message);
    }
}

#[test]
fn bind_values_are_split_at_the_first_colon() {
    assert_eq!(parse_bind(b"/a:/b:c"), Ok(bind("/a", "/b:c")));
    assert_eq!(parse_bind(b"relative:/b"), Ok(bind("relative", "/b")));
    assert_eq!(
        parse_bind(b"/a").unwrap_err(),
        "invalid bind `/a`: expected SOURCE:DEST"
    );
    assert_eq!(
        parse_bind(b":/b").unwrap_err(),
        "invalid bind `:/b`: SOURCE and DEST must not be empty"
    );
    assert_eq!(
        parse_bind(b"/a:").unwrap_err(),
        "invalid bind `/a:`: SOURCE and DEST must not be empty"
    );
    assert_eq!(
        parse_bind(b"/a:b").unwrap_err(),
        "invalid bind `/a:b`: DEST must be an absolute guest path"
    );
    assert_eq!(
        parse_bind(b"/a\xff:/b").unwrap_err(),
        "`--bind` requires UTF-8 SOURCE:DEST paths"
    );
}

#[test]
fn arguments_that_are_not_text_are_taken_where_they_can_be() {
    let mut args = os_args(&["-b", "/a:/b", "-w"]);
    args.push(b"/\xff".to_vec());
    args.push(b"\xfe".to_vec());
    match parse(&args).unwrap() {
        ParseResult::Run(run) => {
            assert_eq!(run.cwd, b"/\xff".to_vec());
            assert_eq!(run.command, b"\xfe".to_vec());
        }
        _ => panic!("expected run arguments"),
    }
    assert_eq!(
        parse(&vec![b"-\xff".to_vec()]).unwrap_err(),
        "unknown option `-\u{fffd}`"
    );
    assert_eq!(
        parse(&vec![b"--bind=/a\xff:/b".to_vec()]).unwrap_err(),
        "unknown option `--bind=/a\u{fffd}:/b`"
    );
}
