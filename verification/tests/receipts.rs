use cowtree::error::Error;
use cowtree::receipt::{
    admin_dir, after_removal, body, creation_receipt, creation_state, creation_temporary_name,
    migrate_legacy, now, parse, read_for, state, state_for_target, temporary_name, valid_oid,
    CreationRead, LocatedReceipt, Receipt, ReceiptState, Removal,
};
use cowtree::worktree::Worktree;

const LEGACY: &[u8] = b"version=1\nsource_branch=main\nsource_commit=abc\ntarget_commit=def\nexcluded_hash=123\ncloned_files=4\ncompleted_at=2026-01-01T00:00:00Z\n";

fn target(head: &str) -> Worktree {
    Worktree {
        path: b"/wt".to_vec(),
        head: head.to_string(),
        branch: None,
        locked: false,
    }
}

fn explained(content: &[u8]) -> String {
    match parse(content) {
        Err(Error::Message(text)) => text,
        other => panic!("{other:?}"),
    }
}

#[test]
fn parses_legacy_core_fields() {
    let value = parse(LEGACY).unwrap();
    assert_eq!(value.cloned_files, 4);
    assert_eq!(value.eligible_allocated_bytes, None);
}

#[test]
fn rejects_unsupported_receipts() {
    assert!(parse(b"version=2\n").is_err());
}

#[test]
fn computes_state_transitions() {
    let located = Ok(LocatedReceipt {
        receipt: parse(LEGACY).unwrap(),
        legacy: true,
    });
    assert_eq!(state(Some(&located), "abc", "def"), ReceiptState::Compacted);
    assert_eq!(state(Some(&located), "new", "def"), ReceiptState::Stale);
    assert_eq!(state(None, "abc", "def"), ReceiptState::NotCompacted);
}

#[test]
fn what_is_wrong_with_a_receipt_is_said() {
    assert_eq!(explained(b"\xff"), "receipt is not UTF-8");
    assert_eq!(explained(b"version=1\nnonsense\n"), "malformed receipt line");
    assert_eq!(
        explained(b"version=1\nversion=1\n"),
        "duplicate receipt field: version"
    );
    assert_eq!(explained(b"version=2\n"), "unsupported receipt version");
    assert_eq!(explained(b"version=1\n"), "receipt is missing source_branch");
    assert_eq!(
        explained(b"version=1\nsource_branch=\n"),
        "receipt is missing source_branch"
    );
    let start = "version=1\nsource_branch=b\nsource_commit=c\ntarget_commit=d\nexcluded_hash=e\n";
    assert_eq!(
        explained(format!("{start}cloned_files=x\n").as_bytes()),
        "invalid cloned_files"
    );
    assert_eq!(
        explained(format!("{start}cloned_files=18446744073709551616\n").as_bytes()),
        "invalid cloned_files"
    );
    assert_eq!(
        explained(format!("{start}cloned_files=1\neligible_allocated_bytes=\n").as_bytes()),
        "invalid eligible_allocated_bytes"
    );
    assert_eq!(
        explained(format!("{start}cloned_files=1\n").as_bytes()),
        "receipt is missing completed_at"
    );
}

#[test]
fn lines_may_end_in_carriage_returns_and_hold_equal_signs() {
    let value = parse(
        b"version=1\r\n\nsource_branch=a=b\r\nsource_commit=c\ntarget_commit=d\nexcluded_hash=e\ncloned_files=+7\neligible_allocated_bytes=9\ncompleted_at=now",
    )
    .unwrap();
    assert_eq!(value.source_branch, "a=b");
    assert_eq!(value.cloned_files, 7);
    assert_eq!(value.eligible_allocated_bytes, Some(9));
    assert_eq!(value.completed_at, "now");
}

#[test]
fn a_written_receipt_reads_back() {
    let receipt = Receipt {
        source_branch: "multi".to_string(),
        source_commit: "abc".to_string(),
        target_commit: "def".to_string(),
        excluded_hash: "sha256:00".to_string(),
        cloned_files: u64::MAX,
        eligible_allocated_bytes: Some(4096),
        completed_at: "2026-01-01T00:00:00Z".to_string(),
    };
    let text = body(&receipt);
    assert_eq!(
        text,
        "version=1\nsource_branch=multi\nsource_commit=abc\ntarget_commit=def\nexcluded_hash=sha256:00\ncloned_files=18446744073709551615\neligible_allocated_bytes=4096\ncompleted_at=2026-01-01T00:00:00Z\n"
    );
    let again = parse(text.as_bytes()).unwrap();
    assert_eq!(body(&again), text);
    let legacy = parse(LEGACY).unwrap();
    assert_eq!(body(&legacy).as_bytes(), LEGACY);
}

#[test]
fn a_receipt_that_was_read_can_be_written_anew() {
    // Lines may be in any order, end in a carriage return or be empty.
    let old = b"completed_at=now\r\n\r\nversion=1\nextra=kept out\ncloned_files=007\nexcluded_hash=e\ntarget_commit=d\nsource_commit=c\nsource_branch=a=b";
    let first = parse(old).unwrap();
    let again = parse(body(&first).as_bytes()).unwrap();
    assert_eq!(format!("{again:?}"), format!("{first:?}"));
    assert_eq!(first.cloned_files, 7);
    // A carriage return that belongs to a text is lost with its line's end.
    let text = String::from_utf8(LEGACY.to_vec()).unwrap().replace("abc\n", "abc\r\r\n");
    let read = parse(text.as_bytes()).unwrap();
    assert_eq!(read.source_commit, "abc\r");
    assert_eq!(parse(body(&read).as_bytes()).unwrap().source_commit, "abc");
}

#[test]
fn receipts_are_bound_to_their_commits() {
    let single = Some(Ok(LocatedReceipt {
        receipt: parse(LEGACY).unwrap(),
        legacy: false,
    }));
    let tip = |text: &str| Some(text.to_string());
    let of = |located: &Option<Result<LocatedReceipt, Error>>, head: &str, tip: &Option<String>| {
        state_for_target(located.as_ref(), &target(head), tip)
    };
    assert_eq!(of(&single, "def", &tip("abc")), ReceiptState::Compacted);
    assert_eq!(of(&single, "def", &tip("moved")), ReceiptState::Stale);
    assert_eq!(of(&single, "moved", &tip("abc")), ReceiptState::Stale);
    assert_eq!(of(&single, "def", &None), ReceiptState::Stale);
    let mut receipt = parse(LEGACY).unwrap();
    receipt.source_branch = "multi".to_string();
    let several = Some(Ok(LocatedReceipt { receipt, legacy: false }));
    assert_eq!(of(&several, "def", &None), ReceiptState::Compacted);
    assert_eq!(of(&several, "moved", &None), ReceiptState::Stale);
    let broken = Some(Err(Error::Message("x".to_string())));
    assert_eq!(of(&broken, "def", &None), ReceiptState::Invalid);
    assert_eq!(of(&None, "def", &None), ReceiptState::NotCompacted);
}

#[test]
fn the_present_name_counts_before_the_old_one() {
    let found = read_for(None, Some(Ok(LEGACY.to_vec())), None).unwrap().unwrap().unwrap();
    assert!(!found.legacy && !migrate_legacy(&found));
    let found = read_for(None, None, Some(Ok(LEGACY.to_vec()))).unwrap().unwrap().unwrap();
    assert!(found.legacy && migrate_legacy(&found));
    assert!(read_for(None, None, None).unwrap().is_none());
    assert!(read_for(None, Some(Ok(b"bad".to_vec())), Some(Ok(LEGACY.to_vec())))
        .unwrap()
        .unwrap()
        .is_err());
    assert!(matches!(
        read_for(None, Some(Err("denied".to_string())), None),
        Err(Error::Io(text)) if text == "denied"
    ));
    assert!(matches!(
        read_for(Some(Error::NotWorktree), Some(Ok(LEGACY.to_vec())), None),
        Err(Error::NotWorktree)
    ));
}

#[test]
fn a_removed_receipt_need_not_exist() {
    assert_eq!(after_removal(Removal::Removed).unwrap(), true);
    assert_eq!(after_removal(Removal::Missing).unwrap(), false);
    assert!(matches!(
        after_removal(Removal::Failed("busy".to_string())),
        Err(Error::Io(text)) if text == "busy"
    ));
}

#[test]
fn names_of_files_in_the_making() {
    assert_eq!(temporary_name(12, 345), ".cowtree-compaction.tmp.12.345");
    assert_eq!(creation_temporary_name(12), ".cowtree-creation.12.tmp");
    assert_eq!(admin_dir(Ok("/repo/.git".to_string())).unwrap(), b"/repo/.git");
    assert!(admin_dir(Err(Error::NotWorktree)).is_err());
}

#[test]
fn creation_receipts_are_checked() {
    let commit = "a".repeat(40);
    let source = "b".repeat(40);
    let sources = vec![source.clone()];
    let at = || "2026-01-01T00:00:00Z".to_string();
    let read = |target: &str, sources: &Vec<String>, count: u64, at: String| {
        CreationRead::Read(creation_receipt(target, sources, count, at))
    };
    let good = read(&commit, &sources, 1, at());
    assert_eq!(creation_state(&good, &commit), ReceiptState::Created);
    assert_eq!(creation_state(&good, &source), ReceiptState::Stale);
    for bad in [
        read(&commit, &vec![], 1, at()),
        read(&commit, &sources, 0, at()),
        read("abc", &sources, 1, at()),
        read(&commit, &vec!["c".repeat(64)], 1, at()),
        read(&commit, &vec!["g".repeat(40)], 1, at()),
        read(&commit, &sources, 1, String::new()),
    ] {
        assert_eq!(creation_state(&bad, &commit), ReceiptState::Invalid);
    }
    let mut other = creation_receipt(&commit, &sources, 1, at());
    other.version = 2;
    assert_eq!(
        creation_state(&CreationRead::Read(other), &commit),
        ReceiptState::Invalid
    );
    assert_eq!(creation_state(&CreationRead::Missing, &commit), ReceiptState::NotCompacted);
    assert_eq!(creation_state(&CreationRead::Malformed, &commit), ReceiptState::Invalid);
    assert_eq!(creation_state(&CreationRead::Unreadable, &commit), ReceiptState::Unknown);
    assert_eq!(creation_state(&CreationRead::NoDirectory, &commit), ReceiptState::Unknown);
}

#[test]
fn object_names_are_hexadecimal() {
    assert!(valid_oid(&"0123456789abcdefABCDEF0123456789abcdef01"));
    assert!(valid_oid(&"f".repeat(64)));
    assert!(!valid_oid(&"f".repeat(41)));
    assert!(!valid_oid(&"x".repeat(40)));
    assert!(!valid_oid(""));
}

#[test]
fn the_present_moment_is_a_timestamp() {
    let text = now().unwrap();
    assert!(text.len() >= 20 && text.ends_with('Z'));
    assert_eq!(&text[4..5], "-");
    assert_eq!(&text[10..11], "T");
    let year: u32 = text[0..4].parse().unwrap();
    assert!(year >= 2024);
}
