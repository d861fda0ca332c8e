use mate::error::ErrorKind;
use mate::host::{EnvPath, Host, PathFacts};
use mate::model::EnvVar;
use mate::path::{FilePath, Platform};
use mate::process::{
    capture, capture_environment, executable_names, find_all_in_directories, find_all_on_path,
    find_trusted_system_executable, find_user_commands, must_terminate, probe_version,
    probe_version_sanitized, probe_version_sanitized_in, read_bounded, safe_diagnostic,
    safe_user_executable, search_command, search_command_sanitized, system_candidates, version_text,
    BoundedReadError, CaptureBudget, CaptureEvent, CapturedOutput, Chunk, EnvChange, ReadStep,
};

fn file(path: &str, canonical: &str) -> PathFacts {
    PathFacts {
        path: FilePath::unix(path),
        is_entry: true,
        exists: true,
        is_file: true,
        is_dir: false,
        mode: 0o755,
        owned_by_root: false,
        canonical: Ok(FilePath::unix(canonical)),
        content: None,
    }
}

fn directory(path: &str) -> PathFacts {
    PathFacts { is_file: false, is_dir: true, ..file(path, path) }
}

fn host(paths: Vec<PathFacts>) -> Host {
    Host {
        platform: Platform::Unix,
        current_dir: None,
        temp_dir: FilePath::unix("/tmp"),
        search_path: Vec::new(),
        env: Vec::new(),
        paths,
    }
}

#[test]
fn manager_discovery_uses_only_directly_executable_files() {
    assert_eq!(executable_names(Platform::Windows, "uv"), vec!["uv.exe"]);
    assert_eq!(executable_names(Platform::Unix, "uv"), vec!["uv"]);
}

#[test]
fn bounded_reader_accepts_exact_limit() {
    let input = b"exactly eight";
    let chunks = vec![Chunk { second: false, bytes: input.to_vec() }];
    let (output, other) = read_bounded(input.len(), &chunks).unwrap();
    assert_eq!(output, input);
    assert!(other.is_empty());
}

#[test]
fn bounded_readers_share_one_combined_budget() {
    let stdout = vec![b'o'; 600];
    let stderr = vec![b'e'; 600];
    let chunks = vec![
        Chunk { second: false, bytes: stdout },
        Chunk { second: true, bytes: stderr },
    ];
    let result = read_bounded(1_000, &chunks);

    assert!(result.is_err());
}

#[test]
fn two_streams_that_fit_are_kept_apart() {
    let chunks = vec![
        Chunk { second: false, bytes: b"ab".to_vec() },
        Chunk { second: true, bytes: b"12".to_vec() },
        Chunk { second: false, bytes: b"c".to_vec() },
    ];
    let (first, second) = read_bounded(5, &chunks).unwrap();
    assert_eq!(first, b"abc");
    assert_eq!(second, b"12");
    assert!(read_bounded(4, &chunks).is_err());
}

#[test]
fn a_budget_asks_for_one_byte_more_than_there_is_room_for() {
    let mut budget = CaptureBudget::new(3);
    let mut output = Vec::new();
    assert_eq!(budget.read_size(), 4);
    assert_eq!(budget.accept(&mut output, &b"ab".to_vec()), ReadStep::More);
    assert_eq!(budget.read_size(), 2);
    assert_eq!(budget.accept(&mut output, &b"cd".to_vec()), ReadStep::LimitExceeded);
    assert_eq!(budget.accept(&mut output, &Vec::new()), ReadStep::End);
    assert_eq!(output, b"ab");
    assert_eq!(CaptureBudget::new(100_000).read_size(), 8_192);
}

#[test]
fn capture_terminates_a_process_that_exceeds_the_limit() {
    let event = CaptureEvent::NotRead("stdout".into(), BoundedReadError::LimitExceeded);
    assert!(must_terminate(&event));
    let error = capture(&FilePath::unix("/bin/tool"), 5, 1024, event).unwrap_err();
    assert_eq!(error.kind, ErrorKind::LimitExceeded);
    let message = error.text();
    assert!(message.contains("combined stdout/stderr exceeded the 1024-byte capture limit"));
    assert!(message.contains("process terminated"));
}

#[test]
fn capture_reports_what_went_wrong() {
    let tool = FilePath::unix("/bin/tool");
    let not_started = capture(&tool, 4, 10, CaptureEvent::NotStarted("no such file".into()));
    assert_eq!(not_started.unwrap_err().text(), "failed to run /bin/tool: no such file");
    let timed_out = capture(&tool, 4, 10, CaptureEvent::TimedOut).unwrap_err();
    assert_eq!(timed_out.kind, ErrorKind::TimedOut);
    assert_eq!(timed_out.text(), "/bin/tool timed out after 4 seconds");
    let forever = capture(&tool, u64::MAX, 10, CaptureEvent::TimedOut).unwrap_err();
    assert_eq!(forever.text(), "/bin/tool timed out after 18446744073709551615 seconds");
    let unread = CaptureEvent::NotRead("stderr".into(), BoundedReadError::Io("broken".into()));
    assert_eq!(
        capture(&tool, 4, 10, unread).unwrap_err().text(),
        "failed to read stderr from /bin/tool: broken"
    );
    let unconnected = capture(&tool, 4, 10, CaptureEvent::NoStream("stdout".into()));
    assert_eq!(unconnected.unwrap_err().text(), "failed to capture stdout from /bin/tool");
    let lost = capture(&tool, 4, 10, CaptureEvent::NotAwaited("gone".into()));
    assert_eq!(lost.unwrap_err().text(), "failed to wait for /bin/tool: gone");
}

#[test]
fn capture_decodes_both_streams() {
    let event = CaptureEvent::Ended {
        success: true,
        code: Some(0),
        stdout: "STDOUT_DONE é".as_bytes().to_vec(),
        stderr: vec![b'a', 0xff, b'b'],
    };
    assert!(!must_terminate(&event));
    let output = capture(&FilePath::unix("/bin/tool"), 5, 1024, event).unwrap();
    assert!(output.success);
    assert_eq!(output.stdout, "STDOUT_DONE é");
    assert_eq!(output.stderr, "a\u{fffd}b");
}

#[test]
fn capture_keeps_to_its_limit() {
    let event = |stdout: usize, stderr: usize| CaptureEvent::Ended {
        success: true,
        code: Some(0),
        stdout: vec![b'o'; stdout],
        stderr: vec![b'e'; stderr],
    };
    let tool = FilePath::unix("/bin/tool");
    assert!(capture(&tool, 5, 10, event(6, 4)).is_ok());
    for (stdout, stderr) in [(11, 0), (0, 11), (6, 5)] {
        let error = capture(&tool, 5, 10, event(stdout, stderr)).unwrap_err();
        assert_eq!(error.kind, ErrorKind::LimitExceeded);
        assert_eq!(
            error.text(),
            "/bin/tool combined stdout/stderr exceeded the 10-byte capture limit; process terminated"
        );
    }
}

#[test]
fn versions_come_from_the_first_line_that_says_something() {
    let output = CapturedOutput {
        success: true,
        code: Some(0),
        stdout: "\n  \n cargo 1.90.0 \nmore\n".into(),
        stderr: "noise\n".into(),
    };
    assert_eq!(version_text(&Some(output)), "cargo 1.90.0");
    let on_stderr = CapturedOutput {
        success: true,
        code: Some(0),
        stdout: String::new(),
        stderr: "pip 25\n".into(),
    };
    assert_eq!(version_text(&Some(on_stderr)), "pip 25");
    assert_eq!(version_text(&None), "version unknown");
}

#[test]
fn requests_carry_their_limits() {
    let tool = FilePath::unix("/bin/tool");
    let probe = probe_version(&tool, vec!["--version".into()]);
    assert_eq!(probe.seconds, 4);
    assert_eq!(probe.limit, 64 * 1024);
    let search = search_command(&tool, vec!["search".into(), "x".into()]);
    assert_eq!(search.seconds, 20);
    assert_eq!(search.limit, 4 * 1024 * 1024);
    assert_eq!(search.args, vec!["search".to_owned(), "x".to_owned()]);
    let sanitized = probe_version_sanitized(
        &tool,
        vec!["--version".into()],
        vec!["PIP_".into()],
        vec![EnvVar { name: "PIP_CONFIG_FILE".into(), value: "/dev/null".into() }],
    );
    assert_eq!(sanitized.env_remove_prefixes, vec!["PIP_".to_owned()]);
    assert_eq!(sanitized.cwd, None);
    let placed = probe_version_sanitized_in(
        &tool,
        Vec::new(),
        Vec::new(),
        Vec::new(),
        Some(FilePath::unix("/")),
    );
    assert_eq!(placed.cwd, Some(FilePath::unix("/")));
    let clean = search_command_sanitized(&tool, Vec::new(), vec!["NPM_".into()], Vec::new());
    assert_eq!(clean.seconds, 20);
    assert_eq!(clean.env_remove_prefixes, vec!["NPM_".to_owned()]);
}

#[test]
fn inherited_variables_are_removed_before_others_are_set() {
    let inherited = vec!["PATH".to_owned(), "PIP_USER".to_owned()];
    let env = vec![EnvVar { name: "PIP_USER".into(), value: "0".into() }];
    let changes =
        capture_environment(Platform::Unix, &inherited, &vec!["PIP_".to_owned()], &env);
    assert_eq!(
        changes,
        vec![
            EnvChange::Assign("LC_ALL".into(), "C".into()),
            EnvChange::Assign("LANG".into(), "C".into()),
            EnvChange::Remove("PIP_USER".into()),
            EnvChange::Assign("PIP_USER".into(), "0".into()),
        ]
    );
}

#[test]
fn discovery_preserves_rustup_proxy_launcher_name() {
    let known = host(vec![
        directory("/t"),
        file("/t/rustup", "/t/rustup"),
        file("/t/cargo", "/t/rustup"),
    ]);
    let found = find_all_in_directories(&known, "cargo", &vec![FilePath::unix("/t")]);
    assert_eq!(found.len(), 1);
    assert_eq!(found[0].parts.last().unwrap(), "cargo");
}

#[test]
fn commands_are_found_once_per_file() {
    let mut known = host(vec![
        directory("/a"),
        directory("/b"),
        directory("/here"),
        file("/a/uv", "/real/uv"),
        file("/b/uv", "/real/uv"),
        file("/here/uv", "/here/uv"),
    ]);
    known.search_path = vec![FilePath::unix("/a"), FilePath::unix("/b"), FilePath::unix("")];
    assert_eq!(find_all_on_path(&known, "uv"), vec![FilePath::unix("/a/uv")]);
    known.current_dir = Some(FilePath::unix("/here"));
    assert_eq!(
        find_all_on_path(&known, "uv"),
        vec![FilePath::unix("/a/uv"), FilePath::unix("/here/uv")]
    );
}

#[test]
fn user_commands_must_be_out_of_reach_of_others() {
    let known = host(vec![
        directory("/tmp"),
        file("/home/me/bin/uv", "/home/me/bin/uv"),
        file("/project/bin/uv", "/project/bin/uv"),
        file("/tmp/uv", "/tmp/uv"),
        PathFacts { mode: 0o777, ..file("/open/uv", "/open/uv") },
        PathFacts { mode: 0o644, ..file("/plain/uv", "/plain/uv") },
    ]);
    let project = Some(FilePath::unix("/project"));
    assert!(safe_user_executable(&known, &FilePath::unix("/home/me/bin/uv"), &project));
    assert!(!safe_user_executable(&known, &FilePath::unix("/project/bin/uv"), &project));
    assert!(safe_user_executable(&known, &FilePath::unix("/project/bin/uv"), &None));
    assert!(!safe_user_executable(&known, &FilePath::unix("/tmp/uv"), &project));
    assert!(!safe_user_executable(&known, &FilePath::unix("/open/uv"), &project));
    assert!(!safe_user_executable(&known, &FilePath::unix("/plain/uv"), &project));
    assert!(!safe_user_executable(&known, &FilePath::unix("/missing/uv"), &project));
}

#[test]
fn only_safe_commands_are_offered() {
    let mut known = host(vec![
        directory("/good"),
        directory("/bad"),
        file("/good/uv", "/good/uv"),
        PathFacts { mode: 0o757, ..file("/bad/uv", "/bad/uv") },
    ]);
    known.search_path = vec![FilePath::unix("/bad"), FilePath::unix("/good")];
    assert_eq!(find_user_commands(&known, "uv", &None), vec![FilePath::unix("/good/uv")]);
}

#[test]
fn system_executables_must_belong_to_root() {
    let places = system_candidates(Platform::Unix, "sudo");
    assert_eq!(places[0], FilePath::unix("/usr/bin/sudo"));
    assert_eq!(places.len(), 4);
    assert!(system_candidates(Platform::Windows, "sudo").is_empty());
    let foreign = host(vec![file("/usr/bin/sudo", "/usr/bin/sudo")]);
    assert_eq!(find_trusted_system_executable(&foreign, "sudo"), None);
    let owned = host(vec![
        file("/usr/bin/sudo", "/usr/bin/sudo"),
        PathFacts { owned_by_root: true, ..file("/bin/sudo", "/bin/sudo") },
    ]);
    assert_eq!(find_trusted_system_executable(&owned, "sudo"), Some(FilePath::unix("/bin/sudo")));
}

#[test]
fn diagnostics_are_escaped_and_cut_off() {
    assert_eq!(safe_diagnostic("a\u{1b}[31m\tb"), "a\\u{1b}[31m\\tb");
    assert_eq!(safe_diagnostic(&"x".repeat(3_000)).len(), 2_000);
    assert!(!safe_diagnostic("\u{0}\u{9f}\n").chars().any(|c| c.is_control()));
}

#[test]
fn windows_programs_end_in_exe() {
    let mut known = host(vec![
        PathFacts {
            path: FilePath::windows("C:\\tools\\uv.exe"),
            canonical: Ok(FilePath::windows("C:\\tools\\uv.exe")),
            ..file("/", "/")
        },
        PathFacts {
            path: FilePath::windows("C:\\tools\\uv.cmd"),
            canonical: Ok(FilePath::windows("C:\\tools\\uv.cmd")),
            ..file("/", "/")
        },
    ]);
    known.platform = Platform::Windows;
    known.env.push(EnvPath { name: "TEMP".into(), path: FilePath::windows("C:\\Temp") });
    assert!(safe_user_executable(&known, &FilePath::windows("C:\\tools\\uv.exe"), &None));
    assert!(!safe_user_executable(&known, &FilePath::windows("C:\\tools\\uv.cmd"), &None));
}
