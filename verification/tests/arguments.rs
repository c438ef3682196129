use cowtree::add::{normalize_long, parse_add, registration_args, run, unborn, Git, Route};
use cowtree::process::{exit_code, ProcessOutput};

fn args(values: &[&str]) -> Vec<Vec<u8>> {
    values.iter().map(|value| value.as_bytes().to_vec()).collect()
}

fn finished(code: i32, stdout: &[u8], stderr: &[u8]) -> ProcessOutput {
    ProcessOutput {
        code: Some(code),
        signal: None,
        stdout: stdout.to_vec(),
        stderr: stderr.to_vec(),
    }
}

#[test]
fn operands_are_not_options_or_commands() {
    let add = parse_add(&args(&["--reason", "--", "--lock", "--", "-target"]))
        .unwrap()
        .unwrap();
    assert_eq!(add.path, b"-target");
    assert_eq!(
        registration_args(&args(&["--reason", "--", "--lock", "--", "-target"]), &add),
        args(&[
            "--reason",
            "--",
            "--lock",
            "--no-checkout",
            "--lock",
            "--",
            "-target"
        ])
    );
}

#[test]
fn last_boolean_wins_and_short_clusters_work() {
    let add = parse_add(&args(&["-qfd", "--no-checkout", "--checkout", "path"]))
        .unwrap()
        .unwrap();
    assert!(add.quiet && add.detach && add.checkout);
    assert!(parse_add(&args(&["--future-option", "path"])).is_err());
}

#[test]
fn abbreviated_options_are_completed() {
    assert_eq!(normalize_long(b"--det").unwrap(), b"--detach");
    assert_eq!(normalize_long(b"--reas=x").unwrap(), b"--reason=x");
    // An exact name counts although it starts others.
    assert_eq!(normalize_long(b"--track").unwrap(), b"--track");
    let error = normalize_long(b"--no").unwrap_err();
    assert_eq!(
        format!("{error:?}"),
        "Message(\"unknown or ambiguous worktree add option: --no\")"
    );
}

#[test]
fn registration_without_lock_gives_a_reason() {
    let given = args(&["../feature", "-b", "feature"]);
    let add = parse_add(&given).unwrap().unwrap();
    assert_eq!(add.path, b"../feature");
    assert!(!add.explicit_target);
    let changed = registration_args(&given, &add);
    assert_eq!(
        changed,
        args(&[
            "../feature",
            "-b",
            "feature",
            "--no-checkout",
            "--lock",
            "--reason",
            "cowtree: initializing"
        ])
    );
    // What Git is handed asks for the same worktree, without a checkout.
    let again = parse_add(&changed).unwrap().unwrap();
    assert_eq!(again.path, b"../feature");
    assert!(!again.checkout && again.locked);
}

#[test]
fn what_git_diagnoses_is_left_to_git() {
    assert!(parse_add(&args(&["-h"])).unwrap().is_none());
    assert!(parse_add(&args(&[])).unwrap().is_none());
    assert!(parse_add(&args(&["a", "b", "c"])).unwrap().is_none());
    assert!(parse_add(&args(&["path", "-b"])).unwrap().is_none());
    assert!(parse_add(&args(&["--reason", "why", "path"])).unwrap().is_none());
    assert!(parse_add(&args(&["-x", "path"])).is_err());
    assert_eq!(run(&None), Route::Native);
}

#[test]
fn routes_depend_on_the_request() {
    let native = parse_add(&args(&["--no-checkout", "path"])).unwrap();
    assert_eq!(run(&native), Route::Native);
    let orphan = parse_add(&args(&["--orphan", "path"])).unwrap();
    assert_eq!(run(&orphan), Route::Native);
    let inferred = parse_add(&args(&["path"])).unwrap();
    assert_eq!(run(&inferred), Route::FindUnborn);
    let explicit = parse_add(&args(&["path", "main"])).unwrap();
    assert_eq!(run(&explicit), Route::Create);
    assert_eq!(unborn(b"", false), Route::Native);
    assert_eq!(unborn(b"", true), Route::Create);
    assert_eq!(unborn(b"abc\n", false), Route::Create);
}

#[test]
fn git_is_invoked_in_the_new_worktree() {
    let git = Git;
    assert!(git.original().arguments.is_empty());
    let at = git.at(b"/tmp/wt");
    assert_eq!(at.arguments, args(&["-C", "/tmp/wt"]));
    assert_eq!(at.set[0], ("GIT_DIR".to_string(), b"/tmp/wt/.git".to_vec()));
    assert_eq!(at.set[1], ("GIT_WORK_TREE".to_string(), b"/tmp/wt".to_vec()));
    assert_eq!(at.removed.len(), 5);
}

#[test]
fn output_of_git_is_captured_or_its_failure() {
    let git = Git;
    let (stdout, relayed) = git.bytes(finished(0, b"out", b"warning"), None).unwrap();
    assert_eq!(stdout, b"out");
    assert_eq!(relayed, b"warning");
    let error = git.bytes(finished(3, b"", b" broken \n"), None).unwrap_err();
    assert_eq!(
        format!("{error:?}"),
        "GitProcess { code: 3, message: \"broken\" }"
    );
    let unwritten = Some(Err("closed pipe".to_string()));
    let error = git.bytes(finished(0, b"", b""), unwritten).unwrap_err();
    assert_eq!(format!("{error:?}"), "Io(\"closed pipe\")");
    assert_eq!(git.text(finished(0, b"  abc\n", b"")).unwrap(), "abc");
    // Bytes that are no text are replaced.
    assert_eq!(git.text(finished(0, b"a\xff\n", b"")).unwrap(), "a\u{fffd}");
}

#[test]
fn exit_status_is_that_of_a_shell() {
    assert_eq!(exit_code(Some(7), None), 7);
    assert_eq!(exit_code(None, Some(15)), 143);
    assert_eq!(exit_code(None, None), 129);
}
