use cowtree::create::Stage;
use cowtree::directory::Named;
use cowtree::error::Error;
use cowtree::ownership::{Cleanup, Creation, Seeded, Share};
use cowtree::platform::{Identity, Place};
use cowtree::populate::Population;
use cowtree::process::ProcessOutput;

const COMMIT: &str = "1111111111111111111111111111111111111111";
const FILE: &str = "2222222222222222222222222222222222222222";
const ROOT: Place = Place { device: 1, inode: 100 };

fn output(code: i32, stdout: &[u8]) -> ProcessOutput {
    ProcessOutput {
        code: Some(code),
        signal: None,
        stdout: stdout.to_vec(),
        stderr: b"note".to_vec(),
    }
}

fn identity(inode: u64) -> Identity {
    Identity {
        device: 1,
        inode,
        size: 4,
        modified_seconds: 10,
        modified_nanoseconds: 0,
        changed_seconds: 11,
        changed_nanoseconds: 0,
    }
}

fn tree() -> Vec<u8> {
    let mut listing = format!("100644 blob {FILE}\tsrc/file\0").into_bytes();
    listing.extend_from_slice(format!("120000 blob {FILE}\tlink\0").as_bytes());
    listing.extend_from_slice(format!("160000 commit {FILE}\tmodule\0").as_bytes());
    listing
}

fn attributes(paths: &[&str], filter: &str) -> Vec<u8> {
    let mut listing = Vec::new();
    for path in paths {
        for name in ["filter", "text", "eol", "working-tree-encoding", "ident"] {
            let value = if name == "filter" { filter } else { "unspecified" };
            listing.extend_from_slice(format!("{path}\0{name}\0{value}\0").as_bytes());
        }
    }
    listing
}

fn registered() -> Population {
    let mut creation = Creation::new(ROOT);
    creation.remember(b".git", identity(1));
    Population::new(creation, false, false)
}

fn message<T>(result: Result<T, Error>) -> String {
    match result {
        Err(Error::Message(text)) => text,
        _ => panic!("expected a message"),
    }
}

/// A population of the tree above, up to the planning of clones.
fn planned(filter: &str) -> Population {
    let mut population = registered();
    population.authority_checked(0, Ok(ROOT), Ok(identity(1))).unwrap();
    population.commit_read(output(0, format!("{COMMIT}\n").as_bytes())).unwrap();
    assert_eq!(population.commit(), COMMIT);
    assert_eq!(population.stage(), Stage::ResetIndex);
    assert_eq!(population.command_done(output(0, b""), None).unwrap(), b"note".to_vec());
    population.tree_listed(output(0, &tree())).unwrap();
    population.sparse_read(output(1, b"")).unwrap();
    assert_eq!(population.stage(), Stage::ValidateVolume);
    population.volume_validated(Ok(())).unwrap();
    let listing = attributes(&["src/file", "link", "module"], filter);
    population.attributes_checked(output(0, &listing), Some(Ok(())), false).unwrap();
    population.add_inventory(3, &tree()).unwrap();
    population.plan_seeds();
    population
}

fn share(path: &str) -> Share {
    Share {
        completed: vec![Seeded {
            path: path.as_bytes().to_vec(),
            identity: identity(7),
            source: COMMIT.to_string(),
        }],
        error: None,
    }
}

/// The same, with its one file cloned.
fn seeded() -> Population {
    let mut population = planned("unspecified");
    assert_eq!(population.jobs().len(), 1);
    assert_eq!(population.jobs()[0].donors, vec![3]);
    assert_eq!(population.entry(population.jobs()[0].entry).path, b"src/file".to_vec());
    let made = Named { directory: true, place: Place { device: 1, inode: 101 } };
    population.settle_parent(b"src", Ok(made)).unwrap();
    population.parents_made(0).unwrap();
    population.files_seeded(vec![share("src/file")], 0).unwrap();
    population.seeds_required(0).unwrap();
    population
}

/// The same, with everything written.
fn written() -> Population {
    let mut population = seeded();
    assert_eq!(population.absent(), &vec![1usize, 2]);
    assert_eq!(population.gitlinks(), &vec![2usize]);
    assert_eq!(population.cleanup(), Cleanup::Inspect);
    population.absence_checked(&vec![false, false]).unwrap();
    population.materialize(Ok(ROOT), Ok(identity(1))).unwrap();
    assert_eq!(population.cleanup(), Cleanup::Retain);
    assert_eq!(population.missing_paths(), b"link\0".to_vec());
    population.command_done(output(0, b""), Some(Ok(()))).unwrap();
    population.gitlinks_made(Ok(())).unwrap();
    population.command_done(output(0, b""), None).unwrap();
    population.authority_checked(0, Ok(ROOT), Ok(identity(1))).unwrap();
    population
}

#[test]
fn a_worktree_is_filled_to_the_end() {
    let mut population = written();
    assert_eq!(population.seeds(), &vec![b"src/file".to_vec()]);
    population.seeds_checked(vec![Ok(identity(7))]).unwrap();
    population.head_read(output(0, format!("{COMMIT}\n").as_bytes())).unwrap();
    population.cleanliness_read(output(0, b"")).unwrap();
    population.command_done(output(0, b""), None).unwrap();
    assert_eq!(population.stage(), Stage::Complete);
    population.completed();
    assert_eq!(population.cleanup(), Cleanup::Nothing);
    let (line, relayed) = population.summary_read(output(0, b"HEAD is now at 1")).unwrap();
    assert_eq!((line, relayed), (b"HEAD is now at 1".to_vec(), b"note".to_vec()));
    population.hook_done(0);
    assert_eq!(population.stage(), Stage::RecordReceipt);
    assert_eq!(population.provenance(), vec![COMMIT.to_string()]);
    population.receipt_done();
    assert_eq!((population.stage(), population.code()), (Stage::Done, 0));
}

#[test]
fn a_failed_hook_ends_the_creation() {
    let mut population = written();
    population.seeds_checked(vec![Ok(identity(7))]).unwrap();
    population.head_read(output(0, COMMIT.as_bytes())).unwrap();
    population.cleanliness_read(output(0, b"")).unwrap();
    population.command_done(output(0, b""), None).unwrap();
    population.completed();
    population.summary_read(output(0, b"")).unwrap();
    population.hook_done(3);
    assert_eq!((population.stage(), population.code()), (Stage::Done, 3));
}

#[test]
fn changes_during_creation_are_refused() {
    assert_eq!(
        message(registered().authority_checked(0, Ok(ROOT), Ok(identity(2)))),
        "worktree registration changed during creation"
    );
    let elsewhere = Place { device: 1, inode: 9 };
    assert_eq!(
        message(registered().authority_checked(0, Ok(elsewhere), Ok(identity(1)))),
        "worktree registration changed during creation"
    );
    assert_eq!(
        message(registered().authority_checked(2, Ok(ROOT), Ok(identity(1)))),
        "worktree creation interrupted"
    );
    assert_eq!(
        message(written().seeds_checked(vec![Ok(identity(8))])),
        "seeded clone changed during Git materialization: src/file"
    );
    assert!(matches!(
        written().seeds_checked(vec![Err("gone".to_string())]),
        Err(Error::Io(text)) if text == "gone"
    ));
    assert_eq!(
        message(seeded().absence_checked(&vec![false, true])),
        "unexpected destination path: module"
    );
    let mut population = written();
    population.seeds_checked(vec![Ok(identity(7))]).unwrap();
    assert_eq!(
        message(population.head_read(output(0, FILE.as_bytes()))),
        "target HEAD changed during creation"
    );
    population.head_read(output(0, COMMIT.as_bytes())).unwrap();
    assert_eq!(
        message(population.cleanliness_read(output(0, b"?? x\0"))),
        "checkout validation failed; worktree is not clean"
    );
    assert_eq!(population.cleanup(), Cleanup::Retain);
}

#[test]
fn a_creation_without_clones_is_unavailable() {
    let mut population = planned("lfs");
    assert!(population.jobs().is_empty());
    population.parents_made(0).unwrap();
    population.files_seeded(Vec::new(), 15).unwrap();
    assert_eq!(
        message(population.seeds_required(15)),
        "COW creation unavailable: no verified, checkout-compatible source files on the destination APFS volume; no full-copy fallback was used"
    );
    assert_eq!(population.cleanup(), Cleanup::Inspect);
}

#[test]
fn completed_clones_are_kept_in_mind_when_a_worker_fails() {
    let mut population = planned("unspecified");
    population.parents_made(0).unwrap();
    let failed = Share { completed: Vec::new(), error: Some(Error::Io("full".to_string())) };
    assert!(matches!(
        population.files_seeded(vec![share("src/file"), failed], 0),
        Err(Error::Io(text)) if text == "full"
    ));
    assert!(population.creation().is_owned(b"src/file", identity(7)));
    assert_eq!(population.stage(), Stage::SeedFiles);
}

#[test]
fn a_sparse_checkout_takes_in_what_matches() {
    let mut population = registered();
    population.authority_checked(0, Ok(ROOT), Ok(identity(1))).unwrap();
    population.commit_read(output(0, COMMIT.as_bytes())).unwrap();
    population.command_done(output(0, b""), None).unwrap();
    population.tree_listed(output(0, &tree())).unwrap();
    population.sparse_read(output(0, b"true\n")).unwrap();
    assert_eq!(population.stage(), Stage::MatchSparse);
    assert_eq!(population.all_paths(), b"src/file\0link\0module\0".to_vec());
    assert_eq!(
        population.sparse_matched(output(0, b"link\0"), Some(Ok(()))).unwrap(),
        b"note".to_vec()
    );
    assert_eq!(population.stage(), Stage::OmitPaths);
    assert_eq!(population.omitted_paths(), b"src/file\0module\0".to_vec());
    assert_eq!(population.wanted_paths(), b"link\0".to_vec());
    assert!(matches!(
        population.command_done(output(128, b""), None),
        Err(Error::GitProcess { code: 128, message }) if message == "note"
    ));
    assert!(matches!(
        population.command_done(output(0, b""), Some(Err("pipe".to_string()))),
        Err(Error::Io(text)) if text == "pipe"
    ));
    assert_eq!(population.stage(), Stage::OmitPaths);
}

#[test]
fn an_empty_tree_needs_no_clones() {
    let mut population = registered();
    population.authority_checked(0, Ok(ROOT), Ok(identity(1))).unwrap();
    population.commit_read(output(0, COMMIT.as_bytes())).unwrap();
    population.command_done(output(0, b""), None).unwrap();
    population.tree_listed(output(0, b"")).unwrap();
    population.sparse_read(output(1, b"")).unwrap();
    assert_eq!(population.stage(), Stage::InventoryDonors);
    population.plan_seeds();
    population.parents_made(0).unwrap();
    population.files_seeded(Vec::new(), 0).unwrap();
    population.seeds_required(0).unwrap();
    assert_eq!(population.stage(), Stage::CheckAbsent);
}
