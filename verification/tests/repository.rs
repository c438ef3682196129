use cowtree::eligibility::{ancestors_to_check, validate_ancestors, validate_relative};
use cowtree::error::Error;
use cowtree::git::{blob_matches, nul_paths, output, parse_tree, text};
use cowtree::pathmap::PathMap;
use cowtree::paths;
use cowtree::process::ProcessOutput;
use cowtree::worktree::{
    check_source, current, default_source, discover, find, inferred_source, parse_porcelain, resolve, same_path,
    Worktree,
};

fn finished(code: Option<i32>, stdout: &[u8], stderr: &[u8]) -> ProcessOutput {
    ProcessOutput {
        code,
        signal: None,
        stdout: stdout.to_vec(),
        stderr: stderr.to_vec(),
    }
}

fn worktree(path: &str, branch: Option<&str>) -> Worktree {
    Worktree {
        path: path.as_bytes().to_vec(),
        head: "abc".to_string(),
        branch: branch.map(|name| name.to_string()),
        locked: false,
    }
}

#[test]
fn rejects_traversal_and_absolute_paths() {
    assert!(validate_relative(b"ok/file").is_ok());
    assert!(validate_relative(b"../outside").is_err());
    assert!(validate_relative(b"/outside").is_err());
}

#[test]
fn unsafe_paths_are_named() {
    match validate_relative(b"a/../b") {
        Err(Error::UnsafePath(path)) => assert_eq!(path, b"a/../b"),
        other => panic!("{other:?}"),
    }
    assert!(validate_relative(b"").is_err());
    assert!(validate_relative(b"..a/b").is_ok());
    assert!(validate_relative(b"./a").is_ok());
}

#[test]
fn ancestors_are_looked_at_once() {
    let mut known: PathMap<bool> = PathMap::new();
    assert_eq!(
        ancestors_to_check(b"a/b/file", &known),
        vec![b"a".to_vec(), b"a/b".to_vec()]
    );
    // The second directory is a link, say.
    assert!(validate_ancestors(b"a/b/file", &vec![true, false], &mut known).is_err());
    assert!(known.contains(b"a"));
    assert!(!known.contains(b"a/b"));
    assert_eq!(ancestors_to_check(b"a/b/file", &known), vec![b"a/b".to_vec()]);
    assert!(validate_ancestors(b"a/b/file", &vec![true], &mut known).is_ok());
    assert!(ancestors_to_check(b"a/b/other", &known).is_empty());
    assert!(validate_ancestors(b"a/b/other", &vec![], &mut known).is_ok());
    assert!(ancestors_to_check(b"file", &known).is_empty());
}

#[test]
fn symlinked_ancestor_is_refused() {
    let mut known: PathMap<bool> = PathMap::new();
    match validate_ancestors(b"escape/file", &vec![false], &mut known) {
        Err(Error::UnsafePath(path)) => assert_eq!(path, b"escape/file"),
        other => panic!("{other:?}"),
    }
}

#[test]
fn parses_nul_paths_without_interpreting_content() {
    let paths: Vec<_> = nul_paths(
        b"space name\0tab\tname\0line\nname\0-leading\0unicode-\xe2\x98\x83\0",
    );
    assert_eq!(
        paths,
        vec![
            b"space name".to_vec(),
            b"tab\tname".to_vec(),
            b"line\nname".to_vec(),
            b"-leading".to_vec(),
            b"unicode-\xe2\x98\x83".to_vec(),
        ]
    );
}

#[test]
fn tree_entries_are_read() {
    let entries = parse_tree(
        b"100644 blob aaa\tdir/file\0100755 blob bbb\trun\0120000 blob ccc\tlink\0160000 commit ddd\tmodule\0040000 tree eee\tdir\0",
    )
    .unwrap();
    assert_eq!(entries.len(), 5);
    assert_eq!(entries[0].path, b"dir/file");
    assert_eq!(entries[0].oid, "aaa");
    assert!(entries[0].regular && !entries[0].executable);
    assert!(entries[1].regular && entries[1].executable);
    assert!(!entries[2].regular && !entries[2].gitlink);
    assert!(entries[3].gitlink && !entries[3].regular);
    assert!(entries[4].tree);
}

#[test]
fn malformed_trees_are_refused() {
    let error = parse_tree(b"100644 blob aaa").unwrap_err();
    assert_eq!(format!("{error:?}"), "Message(\"malformed Git tree\")");
    let error = parse_tree(b"100644 blob\tfile\0").unwrap_err();
    assert_eq!(format!("{error:?}"), "Message(\"malformed Git tree entry\")");
    assert!(matches!(
        parse_tree(b"100644 blob aaa\t../file\0"),
        Err(Error::UnsafePath(_))
    ));
    assert!(parse_tree(b"").unwrap().is_empty());
}

#[test]
fn failed_commands_are_explained() {
    assert_eq!(
        output(finished(Some(0), b"out", b""), "exit status: 0".to_string()).unwrap(),
        b"out"
    );
    let error = output(finished(Some(1), b"", b"bad\n"), "exit status: 1".to_string()).unwrap_err();
    assert_eq!(format!("{error:?}"), "Git(\"bad\")");
    let error = output(finished(Some(1), b"", b" \n"), "exit status: 1".to_string()).unwrap_err();
    assert_eq!(format!("{error:?}"), "Git(\"exited with exit status: 1\")");
    assert_eq!(
        text(finished(Some(0), b" main \n", b""), "exit status: 0".to_string()).unwrap(),
        "main"
    );
}

#[test]
fn blobs_are_named_by_their_content() {
    // The names that Git gives to the content "data".
    let sha1 = "6320cd248dd8aeaab759d5871f8781b5c0505172";
    assert!(blob_matches(true, 4, b"data", sha1));
    assert!(!blob_matches(true, 4, b"Data", sha1));
    assert!(!blob_matches(true, 5, b"data", sha1));
    assert!(!blob_matches(false, 4, b"data", sha1));
    // The empty blob under both hashes.
    assert!(blob_matches(true, 0, b"", "e69de29bb2d1d6434b8b29ae775ad8c2e48c5391"));
    assert!(blob_matches(
        true,
        0,
        b"",
        "473a0f4c3be8a93681a267e3b1e9a7dcda1185436fe141f7749120a303721813"
    ));
    assert!(!blob_matches(true, 0, b"", "E69DE29BB2D1D6434B8B29AE775AD8C2E48C5391"));
}

#[test]
fn parses_detached_and_locked_worktrees() {
    let raw = b"worktree /repo\0HEAD abc\0branch refs/heads/main\0\0worktree /tmp/wt\0HEAD def\0detached\0locked reason\0\0";
    let parsed = parse_porcelain(raw).unwrap();
    assert_eq!(parsed.len(), 2);
    assert_eq!(parsed[0].branch.as_deref(), Some("main"));
    assert_eq!(parsed[1].branch, None);
    assert!(parsed[1].locked);
}

#[test]
fn incomplete_worktrees_are_left_out() {
    let parsed = parse_porcelain(b"worktree /bare\0bare\0\0worktree /a\0HEAD abc\0locked\0").unwrap();
    assert_eq!(parsed.len(), 1);
    assert_eq!(parsed[0].path, b"/a");
    assert_eq!(parsed[0].head, "abc");
    assert!(parsed[0].locked);
}

#[test]
fn refusal_of_git_means_no_worktree() {
    assert!(matches!(
        discover(Err(Error::Git("not a repository".to_string()))),
        Err(Error::NotWorktree)
    ));
    assert!(matches!(
        discover(Err(Error::Io("missing".to_string()))),
        Err(Error::Io(_))
    ));
    assert_eq!(discover(Ok(b"worktree /a\0HEAD x\0\0".to_vec())).unwrap().len(), 1);
}

#[test]
fn labels_prefer_the_branch() {
    assert_eq!(worktree("/a", Some("main")).label(), "main");
    assert_eq!(worktree("/a", None).label(), "/a");
    let odd = Worktree {
        path: b"/a\xff".to_vec(),
        head: String::new(),
        branch: None,
        locked: false,
    };
    assert_eq!(odd.label(), "/a\u{fffd}");
}

#[test]
fn worktrees_are_found_by_path_and_branch() {
    let list = vec![
        worktree("/repo", Some("main")),
        worktree("/tmp/a", Some("a")),
        worktree("/tmp/b", None),
    ];
    let places = vec![None, None, Some(b"/private/tmp/b".to_vec())];
    assert_eq!(resolve(&list, b"/repo/", &places, &None).unwrap().label(), "main");
    assert_eq!(resolve(&list, b"a", &places, &None).unwrap().path, b"/tmp/a");
    assert_eq!(
        resolve(&list, b"/link/b", &places, &Some(b"/private/tmp/b".to_vec()))
            .unwrap()
            .path,
        b"/tmp/b"
    );
    assert!(matches!(
        resolve(&list, b"missing", &places, &None),
        Err(Error::WorktreeNotFound(name)) if name == "missing"
    ));
    let twice = vec![worktree("/a", Some("x")), worktree("/b", Some("x"))];
    assert!(matches!(
        resolve(&twice, b"x", &vec![], &None),
        Err(Error::AmbiguousWorktree(name)) if name == "x"
    ));
}

#[test]
fn same_path_goes_by_text_or_place() {
    assert!(same_path(b"/a/./b", b"/a//b/", &None, &None));
    assert!(!same_path(b"/a", b"/b", &None, &Some(b"/c".to_vec())));
    assert!(same_path(
        b"/a",
        b"/b",
        &Some(b"/c".to_vec()),
        &Some(b"/c".to_vec())
    ));
}

#[test]
fn default_source_is_inferred() {
    let list = vec![worktree("/repo", Some("main")), worktree("/dev", Some("develop"))];
    let origin = Some("origin/develop".to_string());
    assert_eq!(inferred_source(&origin, true, true).unwrap(), "develop");
    let source = default_source(&list, &origin, true, false).unwrap();
    assert_eq!(source.path, b"/dev");
    let source = default_source(&list, &None, true, true).unwrap();
    assert_eq!(source.path, b"/repo");
    let error = default_source(&list, &None, false, true).unwrap_err();
    assert_eq!(
        format!("{error:?}"),
        "Message(\"default source branch 'master' is not checked out; create a worktree for it or pass --source <checked-out-branch-or-path>\")"
    );
    let error = default_source(&list, &Some("other".to_string()), false, false).unwrap_err();
    assert_eq!(
        format!("{error:?}"),
        "Message(\"could not infer source branch from origin/HEAD, main, or master\")"
    );
}

#[test]
fn default_source_is_where_the_branch_is_checked_out() {
    // A path of the same name does not count.
    let list = vec![worktree("main", Some("feature")), worktree("/x", Some("main"))];
    assert_eq!(default_source(&list, &None, true, false).unwrap().path, b"/x");
    assert_eq!(find(&list, b"main", &vec![], &None).unwrap(), 0);
    let list = vec![worktree("main", Some("feature"))];
    assert!(matches!(
        default_source(&list, &None, true, false),
        Err(Error::Message(text)) if text.starts_with("default source branch 'main' is not")
    ));
    let list = vec![worktree("/a", Some("main")), worktree("/b", Some("main"))];
    assert!(matches!(
        default_source(&list, &None, true, false),
        Err(Error::AmbiguousWorktree(name)) if name == "main"
    ));
}

#[test]
fn the_current_worktree_is_the_innermost() {
    let list = vec![
        worktree("/repo", None),
        worktree("/repo/inner", None),
        worktree("/link", None),
    ];
    let places = vec![None, None, Some(b"/real/place".to_vec())];
    assert_eq!(current(&list, b"/repo", &places, &None), Some(0));
    assert_eq!(current(&list, b"/repo/src", &places, &None), Some(0));
    assert_eq!(current(&list, b"/repo/inner/deep/er", &places, &None), Some(1));
    assert_eq!(current(&list, b"/repository", &places, &None), None);
    assert_eq!(
        current(&list, b"/other", &places, &Some(b"/real/place/sub".to_vec())),
        Some(2)
    );
}

#[test]
fn records_of_worktrees_are_read_one_by_one() {
    let one = b"worktree /repo\0HEAD abc\0branch refs/heads/main\0locked\0\0".to_vec();
    let other = b"worktree /a\0HEAD def\0detached\0\0worktree /b\0HEAD 012\0\0".to_vec();
    let read = |raw: &[u8]| -> Vec<String> {
        parse_porcelain(raw)
            .unwrap()
            .iter()
            .map(|one| format!("{one:?}"))
            .collect()
    };
    let mut apart = read(&one);
    apart.extend(read(&other));
    assert_eq!(apart.len(), 3);
    let both = [one, other].concat();
    assert_eq!(read(&both), apart);
    let list = parse_porcelain(&both).unwrap();
    assert!(list[0].locked && !list[1].locked);
    assert_eq!(list[1].branch, None);
}

#[test]
fn sources_are_clean_and_at_the_tip_of_their_branch() {
    let source = worktree("/repo", Some("main"));
    assert!(check_source(&source, b"", &Some("abc".to_string())).is_ok());
    assert!(check_source(&source, b"", &None).is_ok());
    assert_eq!(
        format!("{:?}", check_source(&source, b" M file\0", &None).unwrap_err()),
        "Message(\"source worktree is not clean\")"
    );
    assert_eq!(
        format!("{:?}", check_source(&source, b"", &Some("def".to_string())).unwrap_err()),
        "Message(\"source HEAD is not the tip of its branch\")"
    );
}

#[test]
fn paths_are_compared_by_components() {
    assert!(paths::same(b"a//b/./c/", b"a/b/c"));
    assert!(!paths::same(b"./a", b"a"));
    assert!(paths::lies_in(b"/repo/sub", b"/repo"));
    assert!(!paths::lies_in(b"/repository", b"/repo"));
    assert_eq!(paths::join(b"/a", b"b"), b"/a/b");
    assert_eq!(paths::join(b"/a/", b"b"), b"/a/b");
    assert_eq!(paths::join(b"/a", b"/b"), b"/b");
    assert_eq!(paths::file_name(b"a/b/").unwrap(), b"b");
    assert!(paths::file_name(b"a/..").is_none());
    assert_eq!(paths::parent(b"a/b/c"), b"a/b");
    assert_eq!(paths::parent(b"a"), b"");
}
