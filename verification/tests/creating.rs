use cowtree::attributes::{checkout_safe, config, config_bool, converts_lines};
use cowtree::create::{
    check_absent, check_clean, check_head, check_seed, finish, following, git_arguments,
    is_complete, is_materializing, path_output, reached, records, remainder, require_seeds,
    retained, sorted_sources, Facts, Stage,
};
use cowtree::directory::Named;
use cowtree::donors::Inventory;
use cowtree::error::Error;
use cowtree::git::parse_tree;
use cowtree::hook::{
    after_access, after_advice, after_git_path, after_launch, after_shell, after_top_level,
    after_working_directory, hook_arguments, hook_environment, post_checkout, Access, HookStep,
    Launched,
};
use cowtree::ownership::{
    check_cancelled, cleanup, cleanup_inspected, cleanup_removed, Cleanup, Creation, Found, Seeded,
    Share,
};
use cowtree::pathmap::path_set;
use cowtree::platform::{CloneOutcome, Identity, Place};
use cowtree::process::ProcessOutput;
use cowtree::seeding::{
    index_plan, listed, plan_seeds, rank_sources, usable_sources, SeedJob, SeedRun, SeedStep,
};
use cowtree::worktree::Worktree;

fn finished(code: Option<i32>, stdout: &[u8], stderr: &[u8]) -> ProcessOutput {
    ProcessOutput {
        code,
        signal: None,
        stdout: stdout.to_vec(),
        stderr: stderr.to_vec(),
    }
}

fn identity(inode: u64) -> Identity {
    Identity {
        device: 1,
        inode,
        size: 4,
        modified_seconds: 10,
        modified_nanoseconds: 0,
        changed_seconds: 11,
        changed_nanoseconds: 0,
    }
}

fn place(inode: u64) -> Place {
    Place { device: 1, inode }
}

fn named(inode: u64) -> Named {
    Named { directory: true, place: place(inode) }
}

fn worktree(path: &str, head: &str) -> Worktree {
    Worktree {
        path: path.as_bytes().to_vec(),
        head: head.to_string(),
        branch: None,
        locked: false,
    }
}

const FACTS: Facts = Facts {
    sparse: false,
    omitted: false,
    wanted: true,
    missing: true,
    index_sparse: false,
    locked: false,
    quiet: false,
    hook_code: 0,
};

fn stages(facts: &Facts) -> Vec<Stage> {
    let mut list = vec![Stage::CheckAuthority];
    while *list.last().unwrap() != Stage::Done {
        list.push(following(*list.last().unwrap(), facts));
    }
    list
}

#[test]
fn every_stage_runs_in_order() {
    let all = Facts { sparse: true, omitted: true, index_sparse: true, ..FACTS };
    assert_eq!(stages(&all).len(), 30);
    let plain = stages(&FACTS);
    assert!(!plain.contains(&Stage::MatchSparse));
    assert!(!plain.contains(&Stage::OmitPaths));
    assert!(!plain.contains(&Stage::ReapplySparse));
    assert_eq!(plain.len(), 26);
    let bare = Facts { wanted: false, missing: false, locked: true, quiet: true, ..FACTS };
    let bare = stages(&bare);
    assert!(!bare.contains(&Stage::ValidateVolume));
    assert!(!bare.contains(&Stage::CheckAttributes));
    assert!(!bare.contains(&Stage::CheckOutMissing));
    assert!(!bare.contains(&Stage::Unlock));
    assert!(!bare.contains(&Stage::ShowSummary));
    assert!(bare.contains(&Stage::CheckClean));
}

#[test]
fn a_failed_hook_leaves_no_receipt_stage() {
    let failed = Facts { hook_code: 7, ..FACTS };
    assert!(!stages(&failed).contains(&Stage::RecordReceipt));
    assert_eq!(following(Stage::RunHook, &failed), Stage::Done);
    assert_eq!(following(Stage::RunHook, &FACTS), Stage::RecordReceipt);
}

#[test]
fn cleanup_depends_on_the_stage() {
    assert!(!is_materializing(Stage::CheckAbsent));
    assert!(is_materializing(Stage::Materialize));
    assert!(is_materializing(Stage::CheckOutMissing));
    assert!(!is_complete(Stage::Unlock));
    assert!(is_complete(Stage::RunHook));
    assert_eq!(cleanup(true, true), Cleanup::Nothing);
    assert_eq!(cleanup(false, true), Cleanup::Retain);
    assert_eq!(cleanup(false, false), Cleanup::Inspect);
    assert_eq!(cleanup_inspected(Some(true)), Cleanup::Remove);
    assert_eq!(cleanup_inspected(Some(false)), Cleanup::Retain);
    assert_eq!(cleanup_inspected(None), Cleanup::Retain);
    assert_eq!(cleanup_removed(true, true), Cleanup::Restore);
    assert_eq!(cleanup_removed(true, false), Cleanup::Nothing);
    assert_eq!(cleanup_removed(false, true), Cleanup::Retain);
}

#[test]
fn milestones_and_commands_of_stages() {
    assert_eq!(
        reached(Stage::ReadSparse, Stage::ValidateVolume),
        vec!["prepare target index"]
    );
    assert_eq!(reached(Stage::RunHook, Stage::Done), vec!["finalize and run hook"]);
    assert!(reached(Stage::ReadCommit, Stage::ListTree).is_empty());
    assert_eq!(
        git_arguments(Stage::ListTree, "abc"),
        vec!["ls-tree", "-r", "-z", "abc"]
    );
    assert_eq!(
        git_arguments(Stage::CheckAttributes, "abc"),
        vec![
            "check-attr",
            "--cached",
            "-z",
            "--stdin",
            "filter",
            "text",
            "eol",
            "working-tree-encoding",
            "ident"
        ]
    );
    assert!(git_arguments(Stage::SeedFiles, "abc").is_empty());
}

#[test]
fn registration_has_to_stay() {
    let mut creation = Creation::new(place(1));
    creation.remember(b".git", identity(2));
    assert!(creation.verify_authority(Ok(place(1)), Ok(identity(2))).is_ok());
    for changed in [
        creation.verify_authority(Ok(place(9)), Ok(identity(2))),
        creation.verify_authority(Ok(place(1)), Ok(identity(9))),
        creation.verify_authority(Ok(place(9)), Err("gone".to_string())),
    ] {
        assert!(matches!(
            changed,
            Err(Error::Message(text)) if text == "worktree registration changed during creation"
        ));
    }
    assert!(matches!(
        creation.verify_authority(Ok(place(1)), Err("gone".to_string())),
        Err(Error::Io(text)) if text == "gone"
    ));
    assert!(check_cancelled(0).is_ok());
    assert!(matches!(
        check_cancelled(2),
        Err(Error::Message(text)) if text == "worktree creation interrupted"
    ));
}

#[test]
fn directories_are_made_once_and_watched() {
    let mut creation = Creation::new(place(1));
    assert_eq!(
        creation.parents(b"a/b/file"),
        vec![(b"a".to_vec(), false), (b"a/b".to_vec(), false)]
    );
    creation.settle_parent(b"a", Ok(named(2))).unwrap();
    assert_eq!(creation.parents(b"a/x"), vec![(b"a".to_vec(), true)]);
    creation.settle_parent(b"a", Ok(named(2))).unwrap();
    assert!(matches!(
        creation.settle_parent(b"a", Ok(named(3))),
        Err(Error::UnsafePath(path)) if path == b"a"
    ));
    assert!(creation.settle_parent(b"b", Err("denied".to_string())).is_err());
    assert!(creation.parents(b"file").is_empty());
}

#[test]
fn only_own_state_is_removed() {
    let mut creation = Creation::new(place(1));
    creation.remember(b".git", identity(2));
    creation.settle_parent(b"dir", Ok(named(3))).unwrap();
    creation.remember(b"dir/file", identity(4));
    let own = || {
        vec![
            Found::Directory { path: vec![], named: named(1) },
            Found::File { path: b".git".to_vec(), identity: identity(2) },
            Found::Directory { path: b"dir".to_vec(), named: named(3) },
            Found::File { path: b"dir/file".to_vec(), identity: identity(4) },
        ]
    };
    assert!(creation.only_owned(&own()));
    let mut more = own();
    more.push(Found::File { path: b"external".to_vec(), identity: identity(5) });
    assert!(!creation.only_owned(&more));
    let mut changed = own();
    changed[3] = Found::File { path: b"dir/file".to_vec(), identity: identity(9) };
    assert!(!creation.only_owned(&changed));
}

fn seeded(path: &str, inode: u64, source: &str) -> Seeded {
    Seeded {
        path: path.as_bytes().to_vec(),
        identity: identity(inode),
        source: source.to_string(),
    }
}

#[test]
fn clones_of_failed_workers_are_owned_too() {
    let mut creation = Creation::new(place(1));
    let shares = vec![
        Share {
            completed: vec![seeded("a", 2, "s")],
            error: Some(Error::Message("first".to_string())),
        },
        Share {
            completed: vec![seeded("b", 3, "s")],
            error: Some(Error::Message("second".to_string())),
        },
    ];
    assert!(matches!(
        creation.collect(shares, 0),
        Err(Error::Message(text)) if text == "first"
    ));
    assert!(creation.is_owned(b"a", identity(2)));
    assert!(creation.is_owned(b"b", identity(3)));
    let share = Share {
        completed: vec![seeded("c", 4, "t"), seeded("d", 5, "s"), seeded("e", 6, "t")],
        error: None,
    };
    let seeding = creation.collect(vec![share], 0).unwrap();
    assert_eq!(seeding.paths, vec![b"c".to_vec(), b"d".to_vec(), b"e".to_vec()]);
    assert_eq!(seeding.sources, vec!["t", "s"]);
    assert_eq!(sorted_sources(&seeding.sources), vec!["s", "t"]);
    assert!(matches!(
        creation.collect(vec![], 15),
        Err(Error::Message(text)) if text == "worktree creation interrupted"
    ));
}

#[test]
fn line_conversion_follows_the_configuration() {
    assert!(converts_lines("true", true, ""));
    assert!(!converts_lines("input", true, "crlf"));
    assert!(converts_lines("", false, "CrLf"));
    assert!(!converts_lines("false", false, "lf"));
    assert_eq!(config(finished(Some(0), b" input \n", b"")).unwrap(), "input");
    assert_eq!(config(finished(Some(1), b"x", b"")).unwrap(), "");
    assert!(matches!(
        config(finished(Some(2), b"", b"bad\n")),
        Err(Error::Git(text)) if text == "bad\n"
    ));
    assert!(config_bool(finished(Some(0), b"true\n", b"")).unwrap());
    assert!(!config_bool(finished(Some(0), b"false\n", b"")).unwrap());
    assert!(!config_bool(finished(Some(1), b"true\n", b"")).unwrap());
    assert!(config_bool(finished(None, b"", b"")).is_err());
}

fn attributes(path: &str, values: [&str; 5]) -> Vec<u8> {
    let names = ["filter", "text", "eol", "working-tree-encoding", "ident"];
    let mut listing = Vec::new();
    for (name, value) in names.iter().zip(values) {
        for field in [path, name, value] {
            listing.extend_from_slice(field.as_bytes());
            listing.push(0);
        }
    }
    listing
}

#[test]
fn files_with_attributes_are_left_to_git() {
    let plain = "unspecified";
    let entries = parse_tree(
        b"100644 blob a\tplain\0100644 blob b\tfiltered\0100644 blob c\tempty\0100644 blob d\tbinary\0120000 blob e\tlink\0",
    )
    .unwrap();
    let mut listing = attributes("plain", [plain; 5]);
    listing.extend(attributes("filtered", ["demo", plain, plain, plain, plain]));
    // A value can be empty.
    listing.extend(attributes("empty", ["", plain, plain, plain, plain]));
    listing.extend(attributes("binary", [plain, "unset", plain, plain, plain]));
    listing.extend(attributes("link", [plain; 5]));
    let safe = checkout_safe(&entries, &listing, false).unwrap();
    assert!(safe.contains(b"plain") && safe.contains(b"binary"));
    assert!(!safe.contains(b"filtered") && !safe.contains(b"empty") && !safe.contains(b"link"));
    let converted = checkout_safe(&entries, &listing, true).unwrap();
    assert!(!converted.contains(b"plain") && converted.contains(b"binary"));
    listing.pop();
    assert!(matches!(
        checkout_safe(&entries, &listing, false),
        Err(Error::Message(text)) if text == "malformed checkout attribute inventory"
    ));
    assert!(!checkout_safe(&vec![], b"", false).unwrap().contains(b"plain"));
}

#[test]
fn sparse_paths_are_omitted() {
    let entries = parse_tree(b"100644 blob a\tno/file\0100644 blob b\tyes/file\0").unwrap();
    let plan = index_plan(&entries, &Some(b"yes/file\0".to_vec()));
    assert_eq!((plan.wanted.clone(), plan.omitted.clone()), (vec![1], vec![0]));
    assert_eq!(listed(&entries, &plan.omitted), b"no/file\0");
    let plan = index_plan(&entries, &None);
    assert_eq!((plan.wanted, plan.omitted), (vec![0, 1], vec![]));
}

#[test]
fn sources_are_tried_by_commit_then_invocation_then_path() {
    let sources = vec![
        worktree("/z", "old"),
        worktree("/repo", "new"),
        worktree("/a", "new"),
        worktree("/b", "old"),
    ];
    let all = vec![0, 1, 2, 3];
    assert_eq!(rank_sources(&sources, &all, "new", b"/repo/sub"), vec![1, 2, 3, 0]);
    assert_eq!(rank_sources(&sources, &all, "old", b"/elsewhere"), vec![3, 0, 2, 1]);
    assert_eq!(rank_sources(&sources, &vec![0, 2], "new", b"/repo/sub"), vec![2, 0]);
}

#[test]
fn sources_that_are_refused_or_the_target_are_not_used() {
    let sources = vec![
        worktree("/a", "1"),
        worktree("/target/", "1"),
        worktree("/b", "2"),
        worktree("/c", "2"),
    ];
    let answers = vec![Ok(()), Ok(()), Err(Error::CrossVolume), Ok(())];
    assert_eq!(usable_sources(&sources, b"/target", answers), vec![0, 3]);
    assert!(usable_sources(&sources, b"/target", vec![]).is_empty());
}

#[test]
fn seeds_are_safe_regular_files_that_a_source_holds() {
    let entries = parse_tree(
        b"100644 blob a\tsame\0100644 blob b\tunsafe\0120000 blob c\tlink\0100644 blob d\tnew\0",
    )
    .unwrap();
    let plain = ["unspecified"; 5];
    let mut listing = attributes("same", plain);
    listing.extend(attributes("unsafe", ["demo", plain[0], plain[0], plain[0], plain[0]]));
    listing.extend(attributes("link", plain));
    listing.extend(attributes("new", plain));
    let safe = checkout_safe(&entries, &listing, false).unwrap();
    let inventories = vec![
        Inventory::read(4, b"100644 blob a\tsame\0100644 blob b\tunsafe\0100644 blob c\tlink\0")
            .unwrap(),
        Inventory::read(2, b"100755 blob a\tsame\0").unwrap(),
    ];
    let jobs = plan_seeds(&entries, &vec![0, 1, 2, 3], &safe, &inventories);
    assert_eq!(jobs.len(), 1);
    assert_eq!((jobs[0].entry, jobs[0].donors.clone()), (0, vec![4, 2]));
}

#[test]
fn a_worker_tries_each_donor_in_turn() {
    let jobs = vec![
        SeedJob { entry: 0, donors: vec![5, 6] },
        SeedJob { entry: 1, donors: vec![] },
        SeedJob { entry: 2, donors: vec![7] },
    ];
    let mut run = SeedRun::new(0, 3);
    assert_eq!(run.next(&jobs, false), Some((0, 5)));
    assert_eq!(run.answered(Ok(CloneOutcome::NotRegular)), SeedStep::Continue);
    // A stop does not end a job that was begun.
    assert_eq!(run.next(&jobs, true), Some((0, 6)));
    assert_eq!(run.answered(Ok(CloneOutcome::Cloned)), SeedStep::Inspect);
    run.inspected(b"x", "s", Ok(identity(1)));
    assert_eq!(run.next(&jobs, false), Some((2, 7)));
    assert_eq!(run.answered(Ok(CloneOutcome::ChangedDuringClone)), SeedStep::Continue);
    assert_eq!(run.next(&jobs, false), None);
    let share = run.finish();
    assert_eq!(share.completed.len(), 1);
    assert_eq!(share.completed[0].path, b"x");
    assert_eq!(share.completed[0].source, "s");
    assert_eq!(share.completed[0].identity, identity(1));
    assert!(share.error.is_none());
    let mut stopped = SeedRun::new(0, 3);
    assert_eq!(stopped.next(&jobs, true), None);
    assert_eq!(stopped.next(&jobs, false), None);
}

#[test]
fn an_error_ends_a_worker() {
    let jobs = vec![
        SeedJob { entry: 0, donors: vec![5] },
        SeedJob { entry: 1, donors: vec![6, 7] },
    ];
    let begun = || {
        let mut run = SeedRun::new(0, 2);
        run.next(&jobs, false);
        run.answered(Ok(CloneOutcome::Cloned));
        run.inspected(b"x", "s", Ok(identity(1)));
        assert_eq!(run.next(&jobs, false), Some((1, 6)));
        run
    };
    let mut run = begun();
    assert_eq!(run.answered(Err(Error::CrossVolume)), SeedStep::Continue);
    assert_eq!(run.next(&jobs, false), None);
    let share = run.finish();
    assert!(matches!(share.error, Some(Error::CrossVolume)));
    assert_eq!(share.completed.len(), 1);
    let mut run = begun();
    assert_eq!(run.answered(Ok(CloneOutcome::Cloned)), SeedStep::Inspect);
    run.inspected(b"y", "t", Err("gone".to_string()));
    assert_eq!(run.next(&jobs, false), None);
    let share = run.finish();
    assert!(matches!(share.error, Some(Error::Io(text)) if text == "gone"));
    assert_eq!(share.completed.len(), 1);
}

#[test]
fn what_was_not_cloned_is_left_to_git() {
    let entries = parse_tree(
        b"100644 blob a\tseed\0100644 blob b\tfile\0160000 commit c\tmodule\0120000 blob d\tlink\0",
    )
    .unwrap();
    let seeds = path_set(&vec![b"seed".to_vec()]);
    let rest = remainder(&entries, &vec![0, 1, 2, 3], &seeds);
    assert_eq!(rest.absent, vec![1, 2, 3]);
    assert_eq!(rest.missing, vec![1, 3]);
    assert_eq!(rest.gitlinks, vec![2]);
    assert_eq!(listed(&entries, &rest.missing), b"file\0link\0");
}

#[test]
fn a_checkout_needs_a_clone() {
    assert!(require_seeds(false, 0).is_ok());
    assert!(require_seeds(true, 1).is_ok());
    assert!(matches!(
        require_seeds(true, 0),
        Err(Error::Message(text)) if text.contains("no verified, checkout-compatible source files")
    ));
    assert!(check_absent(b"file", false).is_ok());
    assert!(matches!(
        check_absent(b"file", true),
        Err(Error::Message(text)) if text == "unexpected destination path: file"
    ));
}

#[test]
fn a_finished_checkout_is_validated() {
    let mut creation = Creation::new(place(1));
    creation.remember(b"same", identity(2));
    assert!(check_seed(&creation, b"same", Ok(identity(2))).is_ok());
    assert!(matches!(
        check_seed(&creation, b"same", Ok(identity(3))),
        Err(Error::Message(text))
            if text == "seeded clone changed during Git materialization: same"
    ));
    assert!(matches!(check_seed(&creation, b"same", Err("io".to_string())), Err(Error::Io(_))));
    assert!(check_head("abc", "abc").is_ok());
    assert!(matches!(
        check_head("abc", "def"),
        Err(Error::Message(text)) if text == "target HEAD changed during creation"
    ));
    assert!(check_clean(b"").is_ok());
    assert!(matches!(
        check_clean(b" M file\0"),
        Err(Error::Message(text)) if text == "checkout validation failed; worktree is not clean"
    ));
    let seeds = vec![b"same".to_vec(), b"other".to_vec()];
    assert_eq!(retained(&creation, &seeds, &vec![Some(identity(2)), Some(identity(2))]), 1);
    assert_eq!(retained(&creation, &seeds, &vec![None]), 0);
    assert!(records(1, true, Ok("abc".to_string()), "abc").unwrap());
    assert!(!records(1, true, Ok("moved".to_string()), "abc").unwrap());
    assert!(!records(0, true, Err(Error::NotWorktree), "abc").unwrap());
    assert!(!records(1, false, Err(Error::NotWorktree), "abc").unwrap());
    assert!(records(1, true, Err(Error::NotWorktree), "abc").is_err());
}

#[test]
fn the_end_of_a_creation() {
    assert_eq!(path_output(b"/repo/.git\n").unwrap(), b"/repo/.git");
    assert!(matches!(
        path_output(b"\n"),
        Err(Error::Message(text)) if text == "Git returned an empty path"
    ));
    assert_eq!(finish(15, Err(Error::NotWorktree)).unwrap(), 143);
    assert_eq!(finish(0, Ok(7)).unwrap(), 7);
    assert!(finish(0, Err(Error::NotWorktree)).is_err());
}

#[test]
fn hooks_are_found_in_the_invoking_repository() {
    assert!(matches!(
        post_checkout(finished(Some(0), b"/hooks\n", b"")),
        HookStep::CheckAccess { hook } if hook == b"/hooks/post-checkout"
    ));
    let directory = match post_checkout(finished(Some(0), b"custom-hooks\n", b"")) {
        HookStep::ReadTopLevel { directory } => directory,
        other => panic!("{other:?}"),
    };
    assert!(matches!(
        after_top_level(directory.clone(), finished(Some(0), b"/repo\n", b"")),
        HookStep::CheckAccess { hook } if hook == b"/repo/custom-hooks/post-checkout"
    ));
    assert!(matches!(
        after_top_level(directory.clone(), finished(Some(128), b"", b"")),
        HookStep::ReadWorkingDirectory { .. }
    ));
    assert!(matches!(
        after_working_directory(&directory, b"/cwd"),
        HookStep::CheckAccess { hook } if hook == b"/cwd/custom-hooks/post-checkout"
    ));
    assert!(matches!(post_checkout(finished(Some(1), b"", b"")), HookStep::AskGit));
    assert!(matches!(
        post_checkout(finished(Some(3), b"", b"bad")),
        HookStep::Failed(Error::GitProcess { code: 3, message }) if message == "bad"
    ));
    assert!(matches!(
        after_git_path(finished(Some(0), b"/repo/.git/hooks/post-checkout\n", b"")),
        HookStep::CheckAccess { .. }
    ));
    assert!(matches!(
        after_git_path(finished(Some(0), b"/a\0b\n", b"")),
        HookStep::Failed(Error::Message(text)) if text == "invalid hook path"
    ));
}

#[test]
fn hooks_are_launched_as_git_does() {
    let hook = || b"/h".to_vec();
    assert!(matches!(after_access(hook(), Access::Executable), HookStep::Launch { .. }));
    assert!(matches!(after_access(hook(), Access::Denied), HookStep::ReadAdvice { .. }));
    assert!(matches!(
        after_access(hook(), Access::Absent),
        HookStep::Finished { code: 0, hint: None }
    ));
    assert!(matches!(
        after_advice(b"/h", b"false\n"),
        HookStep::Finished { code: 0, hint: None }
    ));
    assert!(matches!(
        after_advice(b"/h", b""),
        HookStep::Finished { code: 0, hint: Some(text) }
            if text == "hint: The '/h' hook was ignored because it's not set as executable."
    ));
    let exited = |code, signal| Launched::Exited { code, signal };
    assert!(matches!(
        after_launch(hook(), exited(Some(7), None)),
        HookStep::Finished { code: 7, hint: None }
    ));
    assert!(matches!(
        after_launch(hook(), Launched::NotExecutable),
        HookStep::LaunchShell { .. }
    ));
    assert!(matches!(
        after_launch(hook(), Launched::Failed("denied".to_string())),
        HookStep::Failed(Error::Io(_))
    ));
    assert!(matches!(
        after_shell(exited(None, Some(9))),
        HookStep::Finished { code: 137, hint: None }
    ));
    assert_eq!(hook_arguments("abc"), vec!["000", "abc", "1"]);
    assert_eq!(hook_environment(finished(Some(0), b"sub/\n", b"")).unwrap(), b"sub/");
    assert!(hook_environment(finished(Some(1), b"", b"")).is_err());
}
