use std::sync::atomic::{AtomicUsize, Ordering};
use std::sync::Mutex;

use cowtree::cli::{
    check_request, compaction_scope, conclude, is_skipped, status_result, status_targets,
    targets_for, CompactRun,
};
use cowtree::clones::{
    allowed_workers, chunk_bounds, clone_chunk, clone_job, clone_paths_with_workers, divide,
    least_source, merge, worker_panicked, Tally,
};
use cowtree::compact::{actions, compact_one, is_current_receipt, status, Work};
use cowtree::donors::{rank_donors, usable_donors, validated_donors, Inventory};
use cowtree::error::Error;
use cowtree::output::{CompactOutcome, CompactSummary};
use cowtree::plan::{sorted_record, CloneJob, FileSize, Plan, Planner, Seen};
use cowtree::platform::{CloneOutcome, ClonePlatform, SystemPlatform};
use cowtree::receipt::{
    body, creation_receipt, parse, read_for, CreationRead, LocatedReceipt, ReceiptState,
};
use cowtree::worktree::Worktree;

fn worktree(path: &str, head: &str, branch: Option<&str>) -> Worktree {
    Worktree {
        path: path.as_bytes().to_vec(),
        head: head.to_string(),
        branch: branch.map(|name| name.to_string()),
        locked: false,
    }
}

struct RecordingPlatform {
    calls: Vec<AtomicUsize>,
    fail: bool,
}

impl ClonePlatform for RecordingPlatform {
    fn validate(&self, _: &[u8], _: &[u8]) -> Result<(), Error> {
        Ok(())
    }

    fn clone_replacing(
        &self,
        _: &[u8],
        _: &[u8],
        relative: &[u8],
        _: &str,
        sequence: u64,
    ) -> Result<CloneOutcome, Error> {
        let index: usize = String::from_utf8(relative.to_vec()).unwrap().parse().unwrap();
        assert_eq!(sequence as usize, index);
        self.calls[index].fetch_add(1, Ordering::Relaxed);
        if self.fail && index == 0 {
            return Err(Error::Message("injected clone failure".into()));
        }
        Ok(match index % 3 {
            0 => CloneOutcome::Cloned,
            1 => CloneOutcome::ChangedDuringClone,
            _ => CloneOutcome::NotRegular,
        })
    }
}

fn jobs(count: usize) -> Vec<CloneJob> {
    (0..count)
        .map(|i| CloneJob {
            path: i.to_string().into_bytes(),
            oid: String::new(),
            donors: vec![0],
        })
        .collect()
}

#[test]
fn parallel_clones_visit_each_path_once_and_count_outcomes() {
    let platform = RecordingPlatform {
        calls: (0..1025).map(|_| AtomicUsize::new(0)).collect(),
        fail: false,
    };
    let donors = vec![worktree("s", "source", None)];
    let jobs = jobs(1025);
    let result = clone_paths_with_workers(&platform, b"t", &donors, &jobs, 4).unwrap();
    assert_eq!((result.cloned, result.raced), (342, 683));
    assert_eq!(result.sources, vec!["source".to_string()]);
    assert!(platform
        .calls
        .iter()
        .all(|count| count.load(Ordering::Relaxed) == 1));
}

#[test]
fn parallel_clone_failure_is_propagated() {
    let platform = RecordingPlatform {
        calls: (0..1024).map(|_| AtomicUsize::new(0)).collect(),
        fail: true,
    };
    let donors = vec![worktree("s", "source", None)];
    let jobs = jobs(1024);
    let error = clone_paths_with_workers(&platform, b"t", &donors, &jobs, 4).unwrap_err();
    assert!(matches!(error, Error::Message(text) if text == "injected clone failure"));
    assert!(platform
        .calls
        .iter()
        .all(|count| count.load(Ordering::Relaxed) <= 1));
    assert_eq!(platform.calls[0].load(Ordering::Relaxed), 1);
}

/// Keeps what it was handed, and has answers for some paths.
struct Listener {
    heard: Mutex<Vec<String>>,
}

impl Listener {
    fn new() -> Self {
        Listener { heard: Mutex::new(Vec::new()) }
    }

    fn heard(&self) -> Vec<String> {
        self.heard.lock().unwrap().clone()
    }
}

fn shown(bytes: &[u8]) -> String {
    String::from_utf8(bytes.to_vec()).unwrap()
}

impl ClonePlatform for Listener {
    fn validate(&self, source: &[u8], target: &[u8]) -> Result<(), Error> {
        let line = format!("{} {}", shown(source), shown(target));
        self.heard.lock().unwrap().push(line);
        if source == b"/b" {
            Err(Error::CrossVolume)
        } else {
            Ok(())
        }
    }

    fn clone_replacing(
        &self,
        source: &[u8],
        target: &[u8],
        relative: &[u8],
        oid: &str,
        sequence: u64,
    ) -> Result<CloneOutcome, Error> {
        let (source, target, path) = (shown(source), shown(target), shown(relative));
        let line = format!("{source} {target} {path} {oid} {sequence}");
        self.heard.lock().unwrap().push(line);
        match (source.as_str(), path.as_str()) {
            (_, "broken") => Err(Error::CrossVolume),
            (_, "raced") => Ok(CloneOutcome::ChangedDuringClone),
            ("/b", _) => Ok(CloneOutcome::Cloned),
            _ => Ok(CloneOutcome::NotRegular),
        }
    }
}

fn job(path: &str, oid: &str, donors: Vec<usize>) -> CloneJob {
    CloneJob { path: path.as_bytes().to_vec(), oid: oid.to_string(), donors }
}

#[test]
fn a_job_goes_from_donor_to_donor() {
    let donors = vec![
        worktree("/a", "one", None),
        worktree("/b", "two", None),
        worktree("/c", "three", None),
    ];
    let platform = Listener::new();
    let mut tally = Tally::new();
    clone_job(&platform, b"/t", &donors, &job("file", "x", vec![0, 1, 2]), 7, &mut tally).unwrap();
    assert_eq!(platform.heard(), vec!["/a /t file x 7", "/b /t file x 7"]);
    assert_eq!((tally.cloned, tally.raced), (1, 0));
    assert_eq!(tally.sources, vec!["two"]);
    clone_job(&platform, b"/t", &donors, &job("raced", "y", vec![2, 1]), 8, &mut tally).unwrap();
    assert_eq!(platform.heard()[2..], ["/c /t raced y 8"]);
    // No donor has the file, and none is there to be asked.
    clone_job(&platform, b"/t", &donors, &job("gone", "z", vec![0]), 9, &mut tally).unwrap();
    clone_job(&platform, b"/t", &donors, &job("gone", "z", vec![]), 10, &mut tally).unwrap();
    assert_eq!(platform.heard().len(), 4);
    assert_eq!((tally.cloned, tally.raced), (1, 3));
    let failed = clone_job(&platform, b"/t", &donors, &job("broken", "", vec![0]), 11, &mut tally);
    assert!(matches!(failed, Err(Error::CrossVolume)));
    assert_eq!((tally.cloned, tally.raced), (1, 3));
}

#[test]
fn a_chunk_stops_when_it_is_told_to() {
    let donors = vec![worktree("/b", "two", None)];
    let jobs: Vec<CloneJob> = ["p", "q", "r", "s"]
        .iter()
        .map(|path| job(path, "", vec![0]))
        .collect();
    let platform = Listener::new();
    let tally = clone_chunk(&platform, b"/t", &donors, &jobs, 1, 3, || false).unwrap();
    assert_eq!(platform.heard(), vec!["/b /t q  1", "/b /t r  2"]);
    assert_eq!((tally.cloned, tally.raced), (2, 0));
    let asked = AtomicUsize::new(0);
    let platform = Listener::new();
    let tally = clone_chunk(&platform, b"/t", &donors, &jobs, 0, 4, || {
        asked.fetch_add(1, Ordering::Relaxed) == 2
    })
    .unwrap();
    assert_eq!(platform.heard(), vec!["/b /t p  0", "/b /t q  1"]);
    assert_eq!((tally.cloned, tally.raced), (2, 0));
}

#[test]
fn any_number_of_workers_gives_the_same_counts() {
    let donors = vec![worktree("s", "source", None)];
    let jobs = jobs(1025);
    for workers in [0, 1, 2, 3, 4] {
        let platform = RecordingPlatform {
            calls: (0..1025).map(|_| AtomicUsize::new(0)).collect(),
            fail: false,
        };
        let result = clone_paths_with_workers(&platform, b"t", &donors, &jobs, workers).unwrap();
        assert_eq!((result.cloned, result.raced), (342, 683));
        assert_eq!(result.sources, vec!["source"]);
    }
    let alone: Vec<CloneJob> = (0..3).map(|_| job("x", "", vec![])).collect();
    let result = clone_paths_with_workers(&Listener::new(), b"t", &donors, &alone, 4).unwrap();
    assert_eq!((result.cloned, result.raced), (0, 3));
}

#[test]
fn donors_are_asked_about_the_target() {
    let donors = vec![
        worktree("/a", "1", None),
        worktree("/b", "1", None),
        worktree("/t", "1", None),
        worktree("/c", "1", None),
    ];
    let platform = Listener::new();
    assert_eq!(
        validated_donors(&platform, &donors, b"/t", false).unwrap(),
        vec![0, 3]
    );
    let heard = platform.heard();
    for line in ["/a /t", "/b /t", "/c /t"] {
        assert_eq!(heard.iter().filter(|one| one.as_str() == line).count(), 1);
    }
}

#[test]
fn a_named_source_is_the_only_donor() {
    let scope = compaction_scope(3, Some(1), Some(0));
    assert_eq!((scope.left_out, scope.donors), (Some(1), vec![1]));
    let scope = compaction_scope(3, None, Some(2));
    assert_eq!((scope.left_out, scope.donors), (Some(2), vec![0, 1, 2]));
    let scope = compaction_scope(2, None, None);
    assert_eq!((scope.left_out, scope.donors), (None, vec![0, 1]));
}

#[test]
fn a_dry_run_does_nothing() {
    let allowed = actions(true);
    assert!(!allowed.remove_leftovers && !allowed.clone_files && !allowed.write_receipt);
    let allowed = actions(false);
    assert!(allowed.remove_leftovers && allowed.clone_files && allowed.write_receipt);
}

#[test]
fn work_is_divided_evenly() {
    assert_eq!(divide(4, 1025), (4, 257));
    assert_eq!(divide(4, 1024), (4, 256));
    assert_eq!(divide(4, 511), (1, 511));
    assert_eq!(divide(4, 512), (2, 256));
    assert_eq!(divide(0, 10), (1, 10));
    assert_eq!(divide(4, 0), (1, 1));
    assert_eq!(allowed_workers(Some(16)), 4);
    assert_eq!(allowed_workers(Some(2)), 2);
    assert_eq!(allowed_workers(None), 1);
    // The chunks hold every job once.
    let mut seen = vec![0; 1025];
    for k in 0..4 {
        let (start, end) = chunk_bounds(257, 1025, k);
        for job in start..end {
            seen[job] += 1;
        }
    }
    assert!(seen.iter().all(|count| *count == 1));
    assert_eq!(chunk_bounds(257, 1025, 9), (1025, 1025));
}

#[test]
fn tallies_add_up_and_the_first_error_counts() {
    let tally = |cloned: u64, raced: u64, sources: &[&str]| Tally {
        cloned,
        raced,
        sources: sources.iter().map(|text| text.to_string()).collect(),
    };
    let total = merge(vec![Ok(tally(2, 1, &["b", "a"])), Ok(tally(1, 0, &["a", "c"]))]).unwrap();
    assert_eq!((total.cloned, total.raced), (3, 1));
    assert_eq!(total.sources, vec!["b", "a", "c"]);
    assert_eq!(least_source(&total.sources).unwrap(), "a");
    assert_eq!(least_source(&vec![]), None);
    let failed = merge(vec![
        Ok(tally(1, 0, &[])),
        Err(worker_panicked()),
        Err(Error::NotWorktree),
    ]);
    assert!(matches!(failed, Err(Error::Message(text)) if text == "compaction worker panicked"));
    let mut one = Tally::new();
    assert!(!one.record("x", CloneOutcome::NotRegular));
    assert!(one.record("x", CloneOutcome::ChangedDuringClone));
    assert!(one.record("x", CloneOutcome::Cloned));
    one.skip();
    assert_eq!((one.cloned, one.raced), (1, 2));
}

#[test]
fn the_system_without_clones_refuses() {
    let message = "cowtree v1 requires macOS on APFS";
    assert!(matches!(
        SystemPlatform.validate(b"/a", b"/b"),
        Err(Error::UnsupportedFilesystem(text)) if text == message
    ));
    assert!(matches!(
        SystemPlatform.clone_replacing(b"/a", b"/b", b"f", "", 0),
        Err(Error::UnsupportedFilesystem(text)) if text == message
    ));
}

#[test]
fn unusable_donors_are_left_out_unless_they_were_named() {
    let donors = vec![
        worktree("/a", "1", None),
        worktree("/target/", "1", None),
        worktree("/b", "2", None),
    ];
    let answers = || vec![Ok(()), Ok(()), Err(Error::CrossVolume)];
    assert_eq!(
        usable_donors(&donors, b"/target", false, answers()).unwrap(),
        vec![0]
    );
    let error = usable_donors(&donors, b"/target", true, answers()).unwrap_err();
    assert!(
        matches!(error, Error::Message(text) if text == "cannot compact a worktree against itself")
    );
    let error = usable_donors(&donors, b"/other", true, answers()).unwrap_err();
    assert!(matches!(error, Error::CrossVolume));
    assert!(validated_donors(&SystemPlatform, &donors, b"/target", false)
        .unwrap()
        .is_empty());
    assert!(validated_donors(&SystemPlatform, &donors, b"/other", true).is_err());
}

#[test]
fn donors_at_the_same_commit_come_first() {
    let donors = vec![
        worktree("/z", "new", None),
        worktree("/b/c", "old", None),
        worktree("/b", "old", None),
        worktree("/a", "new", None),
    ];
    assert_eq!(rank_donors(&donors, &vec![0, 1, 2, 3], "new"), vec![3, 0, 2, 1]);
    assert_eq!(rank_donors(&donors, &vec![1, 0], "old"), vec![1, 0]);
}

#[test]
fn inventories_know_the_last_entry_of_a_path() {
    let listing = b"100644 blob one\tfile\0100644 blob two\tfile\0120000 blob x\tlink\0";
    let inventory = Inventory::read(5, listing).unwrap();
    assert_eq!(inventory.donor_position(), 5);
    assert!(inventory.holds(b"file", "two"));
    assert!(!inventory.holds(b"file", "one"));
    assert!(!inventory.holds(b"link", "x"));
    assert!(!inventory.holds(b"none", "two"));
    assert!(Inventory::read(0, b"bad\0").is_err());
}

fn file(size: u64, blocks: u64) -> Option<FileSize> {
    Some(FileSize { regular: true, size, blocks })
}

#[test]
fn a_plan_takes_what_donors_hold_and_excludes_the_rest() {
    let listing = b"100644 blob a\tdir/same\0100644 blob b\tdirty\0120000 blob c\tlink\0100644 blob d\tdivergent\0100644 blob e\tmissing\0";
    let mut planner = Planner::start(listing, b"dirty\0").unwrap();
    planner
        .add_inventory(7, b"100644 blob a\tdir/same\0100644 blob b\tdirty\0100644 blob x\tdivergent\0")
        .unwrap();
    planner.add_inventory(3, b"100755 blob a\tdir/same\0").unwrap();
    let mut looked = Vec::new();
    while !planner.finished() {
        let inspection = planner.inspect();
        let path = planner.path().to_vec();
        let seen = Seen {
            ancestors: inspection.ancestors.iter().map(|_| true).collect(),
            file: if path == b"missing" { None } else { file(10, u64::MAX / 512 + 1) },
            donors: inspection
                .donors
                .iter()
                .map(|above| above.iter().flatten().map(|_| true).collect())
                .collect(),
        };
        looked.push((path, inspection.skip));
        planner.settle(&seen).unwrap();
    }
    assert_eq!(
        looked,
        vec![
            (b"dir/same".to_vec(), false),
            (b"dirty".to_vec(), true),
            (b"link".to_vec(), true),
            (b"divergent".to_vec(), false),
            (b"missing".to_vec(), false),
        ]
    );
    let plan = planner.finish();
    assert_eq!(plan.jobs.len(), 1);
    assert_eq!(plan.jobs[0].path, b"dir/same");
    assert_eq!(plan.jobs[0].oid, "a");
    assert_eq!(plan.jobs[0].donors, vec![7, 3]);
    assert_eq!(plan.logical_bytes, 10);
    // More blocks than 64 bits hold bytes for.
    assert_eq!(plan.allocated_bytes, u64::MAX);
    assert_eq!(plan.excluded_count, 4);
    // The hash of "dirty", "divergent", "link" and "missing", each behind a NUL.
    assert_eq!(
        plan.excluded_hash,
        "sha256:b128e39c24120f09da47e8bba010e686240c7026b53fc2bebb2906b86a95bed8"
    );
}

#[test]
fn a_link_above_a_file_fails_the_plan() {
    let mut planner = Planner::start(b"100644 blob a\tdir/file\0", b"").unwrap();
    assert_eq!(planner.inspect().ancestors, vec![b"dir".to_vec()]);
    let seen = Seen { ancestors: vec![false], file: file(1, 1), donors: vec![] };
    assert!(matches!(
        planner.settle(&seen),
        Err(Error::UnsafePath(path)) if path == b"dir/file"
    ));
}

#[test]
fn a_link_in_a_donor_leaves_that_donor_out() {
    let mut planner = Planner::start(b"100644 blob a\tdir/file\0", b"").unwrap();
    planner.add_inventory(0, b"100644 blob a\tdir/file\0").unwrap();
    let seen = Seen {
        ancestors: vec![true],
        file: file(1, 1),
        donors: vec![vec![false]],
    };
    planner.settle(&seen).unwrap();
    let plan = planner.finish();
    assert!(plan.jobs.is_empty());
    assert_eq!(plan.excluded_count, 1);
}

#[test]
fn excluded_paths_are_recorded_in_path_order() {
    let paths = vec![b"b".to_vec(), b"a-b".to_vec(), b"a/c".to_vec(), b"a".to_vec()];
    // By components, "a/c" comes before "a-b".
    assert_eq!(sorted_record(&paths), b"a\0a/c\0a-b\0b\0");
}

fn plan() -> Plan {
    Plan {
        jobs: jobs(2),
        logical_bytes: 20,
        allocated_bytes: 8192,
        excluded_count: 3,
        excluded_hash: "sha256:00".to_string(),
    }
}

fn work(head: &str, raced: u64, sources: &[&str]) -> Option<Work> {
    Some(Work {
        tally: Tally {
            cloned: 2 - raced,
            raced,
            sources: sources.iter().map(|text| text.to_string()).collect(),
        },
        head: head.to_string(),
        completed_at: "2026-01-01T00:00:00Z".to_string(),
    })
}

#[test]
fn a_finished_compaction_has_a_receipt() {
    let target = worktree("/wt", "head", Some("feature"));
    let (report, receipt) =
        compact_one(&target, ReceiptState::Stale, &plan(), work("head", 0, &["b", "a"])).unwrap();
    assert_eq!(report.outcome, CompactOutcome::Compacted);
    assert_eq!(report.status, ReceiptState::Compacted);
    assert_eq!(report.cloned_files, Some(2));
    assert_eq!(report.skipped_changed_paths, Some(0));
    assert_eq!(report.eligible_files, Some(2));
    assert_eq!(report.skipped_divergent_paths, Some(3));
    assert_eq!(report.label(), "feature");
    let receipt = receipt.unwrap();
    assert_eq!(receipt.source_branch, "multi");
    assert_eq!(receipt.source_commit, "a");
    assert_eq!(receipt.target_commit, "head");
    assert_eq!(receipt.eligible_allocated_bytes, Some(8192));
    // Once written it makes the target known as compacted, until the head moves.
    let written = body(&receipt);
    let located = || -> Result<Option<Result<LocatedReceipt, Error>>, Error> {
        Ok(Some(Ok(LocatedReceipt {
            receipt: parse(written.as_bytes()).unwrap(),
            legacy: false,
        })))
    };
    assert!(is_current_receipt(&located(), &target, &None));
    let moved = worktree("/wt", "moved", Some("feature"));
    assert!(!is_current_receipt(&located(), &moved, &None));
    assert_eq!(
        status(&located(), &CreationRead::Missing, &moved, &None),
        ReceiptState::Stale
    );
}

#[test]
fn changes_and_moves_during_a_compaction_show() {
    let target = worktree("/wt", "head", None);
    let (report, receipt) =
        compact_one(&target, ReceiptState::Stale, &plan(), work("head", 1, &[])).unwrap();
    assert_eq!(report.outcome, CompactOutcome::CompactedWithChangedPathsSkipped);
    assert_eq!((report.cloned_files, report.skipped_changed_paths), (Some(1), Some(1)));
    assert_eq!(report.eligible_files, Some(2));
    assert_eq!(report.label(), "/wt");
    assert_eq!(receipt.unwrap().source_commit, "head");
    let error =
        compact_one(&target, ReceiptState::Stale, &plan(), work("moved", 0, &[])).unwrap_err();
    assert!(matches!(
        error,
        Error::Message(text)
            if text == "target HEAD changed during compaction; no receipt was written"
    ));
    let (report, receipt) = compact_one(&target, ReceiptState::Created, &plan(), None).unwrap();
    assert_eq!(report.outcome, CompactOutcome::DryRun);
    assert_eq!(report.status, ReceiptState::Created);
    assert_eq!(report.cloned_files, None);
    assert!(receipt.is_none());
}

#[test]
fn creation_counts_only_without_a_compaction_receipt() {
    let target = worktree("/wt", "head", None);
    assert_eq!(
        status(&Ok(None), &CreationRead::Missing, &target, &None),
        ReceiptState::NotCompacted
    );
    assert_eq!(
        status(&Err(Error::NotWorktree), &CreationRead::Missing, &target, &None),
        ReceiptState::Unknown
    );
    let broken = Ok(Some(Err(Error::NotWorktree)));
    assert_eq!(
        status(&broken, &CreationRead::Missing, &target, &None),
        ReceiptState::Invalid
    );
    assert!(!is_current_receipt(&Err(Error::NotWorktree), &target, &None));
}

#[test]
fn targets_are_all_others_or_the_one_named() {
    let list = vec![
        worktree("/repo", "1", Some("main")),
        worktree("/a", "2", Some("a")),
        worktree("/b", "3", None),
    ];
    let none: Vec<Option<Vec<u8>>> = vec![];
    let all = targets_for(b"/repo", &list, &None, true, Some(&list[0]), &none, &None).unwrap();
    assert_eq!(all, vec![1, 2]);
    let all = targets_for(b"/x", &list, &None, true, None, &none, &None).unwrap();
    assert_eq!(all, vec![0, 1, 2]);
    let named = Some(b"a".to_vec());
    let one = targets_for(b"/repo", &list, &named, false, None, &none, &None).unwrap();
    assert_eq!(one, vec![1]);
    let here = targets_for(b"/b", &list, &None, false, None, &none, &None).unwrap();
    assert_eq!(here, vec![2]);
    assert!(matches!(
        targets_for(b"/x", &list, &None, false, None, &none, &None),
        Err(Error::WorktreeNotFound(name)) if name == "/x"
    ));
    // From below a worktree, that worktree.
    let inside = targets_for(b"/a/deep/er", &list, &None, false, None, &none, &None).unwrap();
    assert_eq!(inside, vec![1]);
}

#[test]
fn the_status_of_all_is_that_of_every_worktree() {
    let list = vec![
        worktree("/repo", "1", Some("main")),
        worktree("/a", "2", Some("a")),
    ];
    let none: Vec<Option<Vec<u8>>> = vec![];
    assert_eq!(
        status_targets(b"/repo", &list, &None, true, &none, &None).unwrap(),
        vec![0, 1]
    );
    assert_eq!(
        status_targets(b"/repo/src", &list, &None, false, &none, &None).unwrap(),
        vec![0]
    );
    let named = Some(b"a".to_vec());
    assert_eq!(
        status_targets(b"/repo", &list, &named, false, &none, &None).unwrap(),
        vec![1]
    );
}

#[test]
fn what_cannot_be_inspected_is_unknown() {
    let target = worktree("/wt", "head", None);
    let refused = read_for(Some(Error::NotWorktree), None, None);
    assert_eq!(
        status(&refused, &CreationRead::NoDirectory, &target, &None),
        ReceiptState::Unknown
    );
    let unreadable = read_for(None, Some(Err("denied".to_string())), None);
    assert_eq!(
        status(&unreadable, &CreationRead::Missing, &target, &None),
        ReceiptState::Unknown
    );
    let malformed = read_for(None, Some(Ok(b"nonsense".to_vec())), None);
    assert_eq!(
        status(&malformed, &CreationRead::Missing, &target, &None),
        ReceiptState::Invalid
    );
}

#[test]
fn runs_are_counted_and_fail_with_any_target() {
    assert!(check_request(true, false).is_ok());
    assert!(check_request(false, true).is_ok());
    assert!(matches!(
        check_request(false, false),
        Err(Error::Message(text)) if text == "compact requires a target or --all"
    ));
    assert!(is_skipped(true, false, true));
    assert!(!is_skipped(true, true, true));
    assert!(!is_skipped(false, false, true));
    let target = worktree("/wt", "head", None);
    let mut run = CompactRun::new(vec![0, 2, 1], true);
    assert_eq!(run.next(), Some(0));
    run.already_compacted(&target);
    assert_eq!(run.next(), Some(2));
    let (report, _) = compact_one(&target, ReceiptState::Stale, &plan(), None).unwrap();
    run.success(report);
    assert!(conclude(&run.summary).is_ok());
    assert_eq!(run.next(), Some(1));
    run.failed(&target, ReceiptState::Stale, "no".to_string());
    assert_eq!(run.next(), None);
    assert_eq!(
        run.summary,
        CompactSummary { compacted: 0, already_compacted: 1, dry_run: 1, failed: 1 }
    );
    assert_eq!(run.results[2].error.as_deref(), Some("no"));
    assert!(matches!(
        conclude(&run.summary),
        Err(Error::Message(text)) if text == "1 target(s) failed"
    ));
    let mut run = CompactRun::new(vec![4, 5], false);
    run.failed(&target, ReceiptState::Stale, "no".to_string());
    assert_eq!(run.next(), None);
    let row = status_result(&target, ReceiptState::Stale);
    assert_eq!((row.path.as_str(), row.branch), ("/wt", None));
}

#[test]
fn a_creation_receipt_does_not_suppress_compaction() {
    let commit = "1111111111111111111111111111111111111111";
    let target = worktree("/wt", commit, None);
    let receipt = creation_receipt(
        commit,
        &vec![commit.to_string()],
        3,
        "2026-01-01T00:00:00Z".to_string(),
    );
    let read = CreationRead::Read(receipt);
    assert_eq!(status(&Ok(None), &read, &target, &None), ReceiptState::Created);
    assert!(!is_current_receipt(&Ok(None), &target, &None));
    let moved = worktree("/wt", "2222222222222222222222222222222222222222", None);
    assert_eq!(status(&Ok(None), &read, &moved, &None), ReceiptState::Stale);
}
