use cowtree::contents::{self, file_examined, mode_fix, Item, Kind, Walk};
use cowtree::directory::{self, CloneTry, DirectoryFacts, DirectoryStep, Named, Standing};
use cowtree::error::Error;
use cowtree::fresh::{
    self, check_name, may_discard, open_parent, CloneDirectoryCache, FreshStep, OpenFacts,
    ParentCache,
};
use cowtree::git::{parse_tree, TreeEntry};
use cowtree::platform::{
    clone_name, cleanup_stale_clones, directory_clone_name, directory_mode, file_mode,
    filesystem_type, ordinary_attributes, origin, stale_candidates, temporary_path,
    validate_filesystem, CloneOutcome, ClonePhase, CloneTimings, Identity, Place, Sighting,
};
use cowtree::receipt::Removal;
use cowtree::replace::{self, FileFacts, ReplaceStep};
use cowtree::visit::{self, FileSeen, Visit, VisitStep};

fn identity(inode: u64) -> Identity {
    Identity {
        device: 1,
        inode,
        size: 4,
        modified_seconds: 10,
        modified_nanoseconds: 0,
        changed_seconds: 11,
        changed_nanoseconds: 0,
    }
}

fn regular(inode: u64, mode: u32) -> Option<FileFacts> {
    Some(FileFacts { regular: true, identity: identity(inode), mode })
}

fn place(inode: u64) -> Place {
    Place { device: 1, inode }
}

#[test]
fn a_clone_replaces_an_unchanged_target() {
    let step = replace::inspected(regular(1, 0o100644), regular(2, 0o100644));
    let files = match step {
        ReplaceStep::Verify(files) => files,
        other => panic!("{other:?}"),
    };
    assert!(matches!(replace::verified(files, Ok(true)), ReplaceStep::Clone(_)));
    assert!(matches!(
        replace::cloned(files, b"file", Ok(())),
        ReplaceStep::InspectSource(_)
    ));
    assert!(matches!(
        replace::source_checked(files, Ok(identity(1))),
        ReplaceStep::SetTimes(_)
    ));
    assert!(matches!(
        replace::times_set(files, Ok(())),
        ReplaceStep::InspectTarget(_)
    ));
    assert!(matches!(
        replace::target_checked(files, Ok(identity(2))),
        ReplaceStep::Rename
    ));
    assert!(matches!(
        replace::renamed(Ok(())),
        ReplaceStep::Finished { result: Ok(CloneOutcome::Cloned), discard: false }
    ));
}

#[test]
fn changes_during_a_replacement_discard_the_clone() {
    let files = match replace::inspected(regular(1, 0o100755), regular(2, 0o102644)) {
        ReplaceStep::Verify(files) => files,
        other => panic!("{other:?}"),
    };
    assert!(matches!(
        replace::source_checked(files, Ok(identity(9))),
        ReplaceStep::Finished { result: Ok(CloneOutcome::ChangedDuringClone), discard: true }
    ));
    assert!(matches!(
        replace::target_checked(files, Ok(identity(9))),
        ReplaceStep::Finished { result: Ok(CloneOutcome::ChangedDuringClone), discard: true }
    ));
    // The clone has to get the permissions of the target, its set-ID bit too.
    assert!(matches!(
        replace::source_checked(files, Ok(identity(1))),
        ReplaceStep::SetMode { mode: 0o2644, .. }
    ));
    assert!(matches!(
        replace::source_checked(files, Err("gone".to_string())),
        ReplaceStep::Finished { result: Err(Error::Io(text)), discard: true } if text == "gone"
    ));
    assert!(matches!(
        replace::mode_set(files, Err("denied".to_string())),
        ReplaceStep::Finished { result: Err(Error::Io(_)), discard: true }
    ));
    assert!(matches!(
        replace::renamed(Err("denied".to_string())),
        ReplaceStep::Finished { result: Err(Error::Io(_)), discard: true }
    ));
}

#[test]
fn only_regular_verified_files_are_replaced() {
    let link = Some(FileFacts { regular: false, identity: identity(1), mode: 0 });
    for step in [
        replace::inspected(None, regular(2, 0)),
        replace::inspected(regular(1, 0), None),
        replace::inspected(link, regular(2, 0)),
        replace::inspected(regular(1, 0), link),
    ] {
        assert!(matches!(
            step,
            ReplaceStep::Finished { result: Ok(CloneOutcome::NotRegular), discard: false }
        ));
    }
    let files = match replace::inspected(regular(1, 0), regular(2, 0)) {
        ReplaceStep::Verify(files) => files,
        other => panic!("{other:?}"),
    };
    assert!(matches!(
        replace::verified(files, Ok(false)),
        ReplaceStep::Finished { result: Ok(CloneOutcome::NotRegular), discard: false }
    ));
    assert!(matches!(
        replace::verified(files, Err(Error::NotWorktree)),
        ReplaceStep::Finished { result: Err(Error::NotWorktree), discard: false }
    ));
    // A failed clone is an error; nothing is copied instead.
    assert!(matches!(
        replace::cloned(files, b"file", Err("full".to_string())),
        ReplaceStep::Finished { result: Err(Error::Clone { path, source }), discard: false }
            if path == b"file" && source == "full"
    ));
}

fn open(flags: u32, regular: bool) -> OpenFacts {
    OpenFacts { regular, flags, identity: identity(1) }
}

#[test]
fn a_new_clone_goes_through_every_check() {
    let step = fresh::clone_new(b"dir/file");
    assert_eq!(step.phase(), Some(ClonePhase::SourceLookup));
    let step = fresh::source_parent(b"dir/file", true);
    assert!(matches!(&step, FreshStep::OpenSource { name } if name == b"file"));
    assert!(matches!(fresh::source_opened(true), FreshStep::InspectSource));
    let step = fresh::source_inspected(Ok(open(0, true)), true);
    assert_eq!(step.phase(), Some(ClonePhase::DonorVerification));
    let before = identity(1);
    let step = fresh::donor_verified(before, Ok(true));
    assert_eq!(step.phase(), Some(ClonePhase::SourceStability));
    let step = fresh::source_rechecked(before, Ok(identity(1)));
    assert_eq!(step.phase(), Some(ClonePhase::TargetLookup));
    let step = fresh::target_parent(before, Ok(()));
    assert_eq!(step.phase(), Some(ClonePhase::CloneFile));
    let step = fresh::file_cloned(before, b"dir/file", Ok(()));
    assert_eq!(step.phase(), Some(ClonePhase::DestinationLookup));
    let clone = identity(7);
    let step = fresh::clone_opened(before, Ok(clone));
    assert_eq!(step.phase(), Some(ClonePhase::RaceValidation));
    let step = fresh::validated(before, clone, b"dir/file", Ok(before), Some(before), Some(clone));
    assert_eq!(step.phase(), Some(ClonePhase::MetadataFinalization));
    let step = fresh::finalized(clone, Ok(()));
    assert_eq!(step.phase(), None);
    assert!(matches!(
        step,
        FreshStep::Finished { result: Ok(CloneOutcome::Cloned), discard: None }
    ));
}

#[test]
fn a_source_that_races_is_skipped_and_its_clone_removed() {
    let before = identity(1);
    let clone = identity(7);
    // Before the clone there is nothing to remove.
    assert!(matches!(
        fresh::source_rechecked(before, Ok(identity(2))),
        FreshStep::Finished { result: Ok(CloneOutcome::ChangedDuringClone), discard: None }
    ));
    for step in [
        fresh::validated(before, clone, b"f", Ok(identity(2)), Some(before), Some(clone)),
        fresh::validated(before, clone, b"f", Ok(before), Some(identity(2)), Some(clone)),
        fresh::validated(before, clone, b"f", Ok(before), None, Some(clone)),
    ] {
        assert!(matches!(
            step,
            FreshStep::Finished { result: Ok(CloneOutcome::ChangedDuringClone), discard: Some(c) }
                if c == clone
        ));
    }
    // A clone that does not stand under its name is an error.
    assert!(matches!(
        fresh::validated(before, clone, b"f", Ok(before), Some(before), Some(identity(9))),
        FreshStep::Finished { result: Err(Error::UnsafePath(path)), discard: Some(_) }
            if path == b"f"
    ));
    assert!(matches!(
        fresh::finalized(clone, Err("denied".to_string())),
        FreshStep::Finished { result: Err(Error::Io(_)), discard: Some(_) }
    ));
    assert!(may_discard(Some(place(7)), clone));
    assert!(!may_discard(Some(place(8)), clone));
    assert!(!may_discard(None, clone));
}

#[test]
fn an_existing_destination_or_odd_source_is_not_cloned() {
    assert!(matches!(
        fresh::file_cloned(identity(1), b"file", Err("exists".to_string())),
        FreshStep::Finished { result: Err(Error::Clone { .. }), discard: None }
    ));
    for step in [
        fresh::source_parent(b"dir/file", false),
        fresh::source_opened(false),
        fresh::source_inspected(Ok(open(2, true)), true),
        fresh::source_inspected(Ok(open(0, false)), true),
        fresh::source_inspected(Ok(open(0, true)), false),
        fresh::donor_verified(identity(1), Ok(false)),
    ] {
        assert!(matches!(
            step,
            FreshStep::Finished { result: Ok(CloneOutcome::NotRegular), discard: None }
        ));
    }
    assert!(matches!(
        fresh::clone_new(b"../file"),
        FreshStep::Finished { result: Err(Error::UnsafePath(_)), .. }
    ));
    assert!(matches!(
        fresh::source_parent(b".", true),
        FreshStep::Finished { result: Err(Error::UnsafePath(_)), .. }
    ));
    assert!(matches!(
        fresh::source_parent(b"a/b\0c", true),
        FreshStep::Finished { result: Err(Error::UnsafePath(path)), .. } if path == b"b\0c"
    ));
    assert!(matches!(
        fresh::source_inspected(Err("gone".to_string()), true),
        FreshStep::Finished { result: Err(Error::Io(_)), .. }
    ));
    // A directory of the target that disappeared is not made again.
    assert!(matches!(
        fresh::target_parent(identity(1), Err(Error::UnsafePath(b"dir".to_vec()))),
        FreshStep::Finished { result: Err(Error::UnsafePath(_)), discard: None }
    ));
}

#[test]
fn open_directories_are_reused_for_their_files() {
    let mut cache = ParentCache::new();
    assert!(!cache.get(b"/root", b"dir/file"));
    cache.remember(b"/root", b"dir/file");
    assert!(cache.get(b"/root/", b"dir/other"));
    assert!(!cache.get(b"/root", b"other/file"));
    assert!(!cache.get(b"/elsewhere", b"dir/file"));
    let both = CloneDirectoryCache::new();
    assert!(!both.source.open && !both.target.open);
    assert_eq!(open_parent(b"./a//b"), vec![b"a".to_vec(), b"b".to_vec()]);
    assert!(open_parent(b"").is_empty());
    assert!(check_name(b"a").is_ok());
    assert!(check_name(b"a\0b").is_err());
}

fn ordinary() -> DirectoryFacts {
    DirectoryFacts { directory: true, flags: 0, mode: 0o40755 }
}

fn named(inode: u64) -> Named {
    Named { directory: true, place: place(inode) }
}

#[test]
fn a_directory_is_published_after_validation() {
    assert!(matches!(directory::clone_directory_new(b"dir"), DirectoryStep::OpenSourceParent));
    assert!(matches!(
        directory::source_parent(b"a/dir", true),
        DirectoryStep::OpenSource { name } if name == b"dir"
    ));
    assert!(matches!(directory::source_opened(true), DirectoryStep::InspectSource));
    assert!(matches!(
        directory::source_inspected(Ok(ordinary()), true),
        DirectoryStep::OpenTargetParent
    ));
    assert!(matches!(directory::target_parent(Ok(())), DirectoryStep::CheckParent));
    assert!(matches!(
        directory::parent_checked(b"dir", true),
        DirectoryStep::CloneDirectory
    ));
    assert!(matches!(
        directory::directory_cloned(b"dir", CloneTry::Made),
        DirectoryStep::InspectClone
    ));
    let clone = match directory::clone_inspected(b"dir", Ok(named(5))) {
        DirectoryStep::Validate { clone } => clone,
        other => panic!("{other:?}"),
    };
    assert!(matches!(
        directory::clone_validated(clone, Ok(true)),
        DirectoryStep::RecheckParent { .. }
    ));
    assert!(matches!(
        directory::parent_rechecked(b"dir", clone, true),
        DirectoryStep::Publish { .. }
    ));
    assert!(matches!(
        directory::published(b"dir", clone, Ok(())),
        DirectoryStep::CheckPublished { .. }
    ));
    assert!(matches!(
        directory::published_checked(b"dir", clone, Some(named(5))),
        DirectoryStep::Finished(Ok(true))
    ));
}

#[test]
fn an_existing_directory_is_not_overwritten() {
    let clone = place(5);
    let step = directory::published(b"dir", clone, Err("exists".to_string()));
    let after = match step {
        DirectoryStep::Remove { clone: c, then } if c == clone => then,
        other => panic!("{other:?}"),
    };
    assert!(matches!(
        directory::clone_removed(after, Ok(())),
        DirectoryStep::Finished(Err(Error::Clone { path, source }))
            if path == b"dir" && source == "exists"
    ));
    assert!(matches!(
        directory::published_checked(b"dir", clone, Some(named(6))),
        DirectoryStep::Finished(Err(Error::UnsafePath(_)))
    ));
}

#[test]
fn a_cancelled_directory_clone_is_removed() {
    let clone = place(5);
    let interrupted = Error::Message("worktree creation interrupted".to_string());
    let after = match directory::clone_validated(clone, Err(interrupted)) {
        DirectoryStep::Remove { then, .. } => then,
        other => panic!("{other:?}"),
    };
    assert!(matches!(
        directory::clone_removed(after, Ok(())),
        DirectoryStep::Finished(Err(Error::Message(text)))
            if text == "worktree creation interrupted"
    ));
    // A clone that is not the tree is no error.
    assert!(matches!(
        directory::clone_validated(clone, Ok(false)),
        DirectoryStep::Remove { then: None, .. }
    ));
    assert!(matches!(
        directory::clone_removed(None, Ok(())),
        DirectoryStep::Finished(Ok(false))
    ));
    assert!(matches!(
        directory::clone_removed(None, Err(Error::NotWorktree)),
        DirectoryStep::Finished(Err(Error::NotWorktree))
    ));
}

#[test]
fn other_ends_of_a_directory_clone() {
    assert!(matches!(
        directory::directory_cloned(b"d", CloneTry::Vanished),
        DirectoryStep::Finished(Ok(false))
    ));
    assert!(matches!(
        directory::directory_cloned(b"d", CloneTry::Failed("full".to_string())),
        DirectoryStep::Finished(Err(Error::Clone { .. }))
    ));
    assert!(matches!(
        directory::source_inspected(Ok(ordinary()), false),
        DirectoryStep::Finished(Ok(false))
    ));
    assert!(matches!(
        directory::parent_checked(b"d", false),
        DirectoryStep::Finished(Err(Error::UnsafePath(_)))
    ));
    assert!(matches!(
        directory::parent_rechecked(b"d", place(1), false),
        DirectoryStep::Finished(Err(Error::UnsafePath(_)))
    ));
    let link = Named { directory: false, place: place(5) };
    assert!(matches!(
        directory::clone_inspected(b"d", Ok(link)),
        DirectoryStep::Finished(Err(Error::UnsafePath(_)))
    ));
    assert!(directory::directory_path_matches(Some(place(5)), Some(named(5))));
    assert!(!directory::directory_path_matches(Some(place(5)), Some(link)));
    assert!(!directory::directory_path_matches(None, Some(named(5))));
}

#[test]
fn only_the_private_clone_is_removed() {
    let remove = |standing| directory::remove_private_clone(b"/t/x", standing, place(5));
    assert_eq!(remove(Standing::Missing).unwrap(), false);
    assert_eq!(remove(Standing::Present(named(5))).unwrap(), true);
    assert!(matches!(
        remove(Standing::Present(named(6))),
        Err(Error::UnsafePath(path)) if path == b"/t/x"
    ));
    assert!(matches!(remove(Standing::Unknown("io".to_string())), Err(Error::Io(_))));
    assert!(directory::private_clone_removed(Removal::Missing).is_ok());
    assert!(directory::private_clone_removed(Removal::Failed("io".to_string())).is_err());
}

/// Two files, each of which holds "data".
fn entries_with_data() -> Vec<TreeEntry> {
    parse_tree(
        b"100644 blob 6320cd248dd8aeaab759d5871f8781b5c0505172\tdir/file\0100755 blob 6320cd248dd8aeaab759d5871f8781b5c0505172\tdir/sub/run\0",
    )
    .unwrap()
}

fn examine(walk: &mut Walk, child: &[u8], content: &[u8]) -> Result<bool, Error> {
    walk.examine(child, open(0, true), true, Ok(content.to_vec()), Ok(identity(1)))
}

#[test]
fn a_walk_keeps_exactly_the_tree() {
    let entries = entries_with_data();
    let mut walk = contents::begin(b"dir", &entries).unwrap().unwrap();
    assert_eq!(walk.enter(0, b"").unwrap(), true);
    assert_eq!(walk.enter(0, b"sub").unwrap(), true);
    assert_eq!(walk.enter(0, b"other").unwrap(), false);
    assert!(walk.enter(15, b"").is_err());
    assert_eq!(walk.item(b"file", Kind::File), Item::Examine(0));
    assert_eq!(walk.item(b"sub", Kind::Directory), Item::Descend);
    assert_eq!(walk.item(b"sub/run", Kind::File), Item::Examine(1));
    assert!(examine(&mut walk, b"file", b"data").unwrap());
    assert!(walk.keep_file(identity(1)));
    assert!(examine(&mut walk, b"sub/run", b"data").unwrap());
    assert!(walk.keep_file(identity(2)));
    assert!(walk.keep_directory(b"sub", ordinary(), true, place(3)));
    assert!(walk.keep_directory(b"", ordinary(), true, place(4)));
    let found = walk.finish().unwrap();
    assert_eq!(found.files[0].0, b"dir/file");
    assert_eq!(found.files[1], (b"dir/sub/run".to_vec(), identity(2)));
    assert_eq!(found.directories[0], (b"dir/sub".to_vec(), place(3)));
    assert_eq!((found.files.len(), found.directories.len()), (2, 2));
    let mut partial = contents::begin(b"dir", &entries).unwrap().unwrap();
    assert!(examine(&mut partial, b"file", b"data").unwrap());
    assert!(partial.keep_file(identity(1)));
    assert!(partial.finish().is_none());
}

#[test]
fn a_walk_keeps_only_what_was_examined_and_nothing_twice() {
    let entries = entries_with_data();
    let mut walk = contents::begin(b"dir", &entries).unwrap().unwrap();
    // Nothing was examined yet.
    assert!(!walk.keep_file(identity(1)));
    // Other content, a file that is not expected, and one that changed.
    assert!(!examine(&mut walk, b"file", b"Data").unwrap());
    assert!(!walk.keep_file(identity(1)));
    assert!(!examine(&mut walk, b"extra", b"data").unwrap());
    let changed = Ok(identity(2));
    assert!(!walk
        .examine(b"file", open(0, true), true, Ok(b"data".to_vec()), changed)
        .unwrap());
    assert!(matches!(
        walk.examine(b"file", open(0, true), true, Err("io".to_string()), Ok(identity(1))),
        Err(Error::Io(text)) if text == "io"
    ));
    assert!(!walk.keep_file(identity(1)));
    // Once examined a file is kept once.
    assert!(examine(&mut walk, b"file", b"data").unwrap());
    assert!(walk.keep_file(identity(1)));
    assert!(!walk.keep_file(identity(1)));
    assert!(!examine(&mut walk, b"file", b"data").unwrap());
    assert!(walk.keep_directory(b"sub", ordinary(), true, place(3)));
    assert!(!walk.keep_directory(b"sub", ordinary(), true, place(3)));
    assert!(!walk.keep_directory(b"other", ordinary(), true, place(3)));
    assert!(!walk.keep_directory(b"", ordinary(), false, place(4)));
    assert!(walk.finish().is_none());
}

#[test]
fn a_walk_that_comes_upon_something_else_fails() {
    let entries = entries_with_data();
    for (child, kind, item) in [
        (&b"extra"[..], Kind::File, Item::Reject),
        (b"file", Kind::Other, Item::Reject),
        (b"other", Kind::Directory, Item::Descend),
    ] {
        let mut walk = contents::begin(b"dir", &entries).unwrap().unwrap();
        assert_eq!(walk.item(child, kind), item);
        for file in [&b"file"[..], b"sub/run"] {
            assert!(examine(&mut walk, file, b"data").unwrap());
            assert!(walk.keep_file(identity(1)));
        }
        assert!(walk.keep_directory(b"sub", ordinary(), true, place(3)));
        assert!(walk.keep_directory(b"", ordinary(), true, place(4)));
        assert!(walk.finish().is_none());
    }
}

fn seen(mode: u32, content: &[u8]) -> Option<FileSeen> {
    Some(FileSeen {
        initial: Ok((open(0, true), mode)),
        ordinary: true,
        content: Ok(content.to_vec()),
        after: Ok(identity(1)),
    })
}

fn begun() -> Visit {
    let (visit, step) = visit::start(b"dir", &entries_with_data(), 0o022, 0).unwrap().unwrap();
    assert!(matches!(step, VisitStep::Open { relative } if relative.is_empty()));
    visit
}

fn item(name: &[u8], kind: Kind) -> Option<Result<(Vec<u8>, Kind), String>> {
    Some(Ok((name.to_vec(), kind)))
}

#[test]
fn a_visit_goes_into_directories_and_comes_out_again() {
    let mut visit = begun();
    let step = visit.opened(Some((Ok(ordinary()), true)));
    assert!(matches!(step, VisitStep::Read { mode: None }));
    let step = visit.read(item(b"sub", Kind::Directory), 0);
    assert!(matches!(step, VisitStep::Open { relative } if relative == b"sub"));
    let closed = DirectoryFacts { mode: 0o40700, ..ordinary() };
    let step = visit.opened(Some((Ok(closed), true)));
    assert!(matches!(step, VisitStep::Read { mode: Some(0o755) }));
    let step = visit.read(item(b"run", Kind::File), 0);
    assert!(matches!(step, VisitStep::Examine { child } if child == b"sub/run"));
    let step = visit.examined(seen(0o100644, b"data"));
    assert!(matches!(step, VisitStep::Keep { mode: Some(0o755) }));
    assert!(matches!(visit.kept(Ok(identity(2))), VisitStep::Read { mode: None }));
    assert!(matches!(visit.read(None, 0), VisitStep::Leave));
    assert!(matches!(visit.left(Ok(place(3))), VisitStep::Read { mode: None }));
    let step = visit.read(item(b"file", Kind::File), 0);
    assert!(matches!(step, VisitStep::Examine { child } if child == b"file"));
    let step = visit.examined(seen(0o100644, b"data"));
    assert!(matches!(step, VisitStep::Keep { mode: None }));
    visit.kept(Ok(identity(1)));
    assert!(matches!(visit.read(None, 0), VisitStep::Leave));
    assert!(matches!(visit.left(Ok(place(4))), VisitStep::Finished(Ok(true))));
    let found = visit.finish().unwrap();
    assert_eq!(
        found.files,
        vec![(b"dir/sub/run".to_vec(), identity(2)), (b"dir/file".to_vec(), identity(1))]
    );
    assert_eq!(found.directories[0], (b"dir/sub".to_vec(), place(3)));
    assert_eq!(found.directories.len(), 2);
}

#[test]
fn a_visit_ends_at_what_is_odd() {
    assert!(matches!(begun().opened(None), VisitStep::Finished(Ok(false))));
    assert!(matches!(
        begun().opened(Some((Ok(ordinary()), false))),
        VisitStep::Finished(Ok(false))
    ));
    assert!(matches!(
        begun().opened(Some((Err("io".to_string()), true))),
        VisitStep::Finished(Err(Error::Io(text))) if text == "io"
    ));
    let inside = || {
        let mut visit = begun();
        visit.opened(Some((Ok(ordinary()), true)));
        visit
    };
    assert!(matches!(
        inside().read(item(b"extra", Kind::File), 0),
        VisitStep::Finished(Ok(false))
    ));
    assert!(matches!(
        inside().read(item(b"other", Kind::Directory), 0),
        VisitStep::Finished(Ok(false))
    ));
    assert!(matches!(
        inside().read(item(b"sub", Kind::Directory), 2),
        VisitStep::Finished(Err(Error::Message(text))) if text == "worktree creation interrupted"
    ));
    assert!(matches!(
        inside().read(Some(Err("io".to_string())), 0),
        VisitStep::Finished(Err(Error::Io(_)))
    ));
    let mut visit = inside();
    visit.read(item(b"file", Kind::File), 0);
    assert!(matches!(visit.examined(seen(0o100644, b"Data")), VisitStep::Finished(Ok(false))));
    assert!(matches!(visit.examined(None), VisitStep::Finished(Ok(false))));
    assert!(matches!(visit.kept(Ok(identity(1))), VisitStep::Finished(Ok(false))));
    assert!(matches!(visit.left(Ok(place(4))), VisitStep::Finished(Ok(true))));
    // The files are missing.
    assert!(visit.finish().is_none());
    assert!(inside().finish().is_none());
    assert!(matches!(
        visit::start(b"dir", &entries_with_data(), 0, 15),
        Ok(Some((_, VisitStep::Finished(Err(Error::Message(_))))))
    ));
}

#[test]
fn odd_directories_are_not_walked() {
    let link = parse_tree(b"120000 blob a\tdir/link\0").unwrap();
    assert!(contents::begin(b"dir", &link).unwrap().is_none());
    let outside = parse_tree(b"100644 blob a\tother/file\0").unwrap();
    assert!(matches!(
        contents::begin(b"dir", &outside),
        Err(Error::UnsafePath(path)) if path == b"other/file"
    ));
}

#[test]
fn files_of_a_clone_are_examined() {
    let good = open(0, true);
    assert_eq!(file_examined(good, true, Ok(true), Ok(identity(1))).unwrap(), true);
    assert_eq!(file_examined(good, true, Ok(true), Ok(identity(2))).unwrap(), false);
    assert_eq!(file_examined(good, true, Ok(false), Ok(identity(1))).unwrap(), false);
    assert_eq!(file_examined(good, false, Ok(true), Ok(identity(1))).unwrap(), false);
    assert_eq!(file_examined(open(1, true), true, Ok(true), Ok(identity(1))).unwrap(), false);
    assert!(file_examined(good, true, Err(Error::NotWorktree), Ok(identity(1))).is_err());
    assert!(file_examined(good, true, Ok(true), Err("io".to_string())).is_err());
    assert!(contents::may_stay(ordinary(), true));
    assert!(!contents::may_stay(ordinary(), false));
    assert!(!contents::may_stay(DirectoryFacts { flags: 1, ..ordinary() }, true));
    assert_eq!(mode_fix(0o100644, 0o644), None);
    assert_eq!(mode_fix(0o100600, 0o644), Some(0o644));
    assert_eq!(file_mode(true, 0o022), 0o755);
    assert_eq!(file_mode(false, 0o027), 0o640);
    assert_eq!(directory_mode(0o022), 0o755);
}

#[test]
fn volumes_have_to_share_blocks() {
    let apfs = || Ok("apfs".to_string());
    assert!(validate_filesystem(1, 1, apfs()).is_ok());
    assert!(matches!(validate_filesystem(1, 2, apfs()), Err(Error::CrossVolume)));
    assert!(matches!(
        validate_filesystem(1, 1, Ok("hfs".to_string())),
        Err(Error::UnsupportedFilesystem(name)) if name == "hfs"
    ));
    assert!(matches!(
        validate_filesystem(1, 1, Err(Error::NotWorktree)),
        Err(Error::NotWorktree)
    ));
    assert_eq!(filesystem_type(b"apfs\0\0\0\0"), "apfs");
    assert_eq!(filesystem_type(b"full"), "full");
}

#[test]
fn only_managed_attributes_are_ordinary() {
    assert!(ordinary_attributes(0, 0, b""));
    assert!(ordinary_attributes(21, 21, b"com.apple.provenance\0"));
    assert!(!ordinary_attributes(10, 10, b"user.note\0"));
    assert!(!ordinary_attributes(-1, -1, b""));
    assert!(!ordinary_attributes(21, 20, b"com.apple.provenance\0"));
}

#[test]
fn clone_names_tell_their_origin() {
    let name = clone_name(b"file.txt", 42, 7, 123456789012345678901234567890);
    assert_eq!(name, b"file.txt.cowtree-clone.42.7.123456789012345678901234567890");
    assert_eq!(origin(&name).unwrap(), (b"file.txt".to_vec(), 42));
    assert_eq!(
        temporary_path(b"a/b/file", 1, 2, 3),
        b"a/b/file.cowtree-clone.1.2.3"
    );
    assert_eq!(temporary_path(b"file", 1, 2, 3), b"file.cowtree-clone.1.2.3");
    assert_eq!(directory_clone_name(1, 2, 3), b".cowtree-directory.1.2.3");
    for other in [
        &b"file.cowtree-clone.1.2"[..],
        b"file.cowtree-clone.1.2.x",
        b"file.cowtree-clone.01.2.3",
        b".cowtree-clone.1.2.3",
        b"file.cowtree-clone.18446744073709551616.2.3",
        b"file.cowtree.1.2.3",
        b"file",
    ] {
        assert!(origin(other).is_none());
    }
    // The name of a clone of a clone tells the clone.
    let again = clone_name(&name, 5, 6, 7);
    assert_eq!(origin(&again).unwrap(), (name, 5));
}

#[test]
fn stale_clones_are_removed_with_care() {
    let known = vec![b"dir/file".to_vec(), b"other".to_vec()];
    let unknown = vec![
        b"dir/file.cowtree-clone.10.0.1".to_vec(),
        b"dir/gone.cowtree-clone.10.0.1".to_vec(),
        b"notes".to_vec(),
        b"other.cowtree-clone.11.0.1".to_vec(),
    ];
    let candidates = stale_candidates(&known, &unknown);
    assert_eq!(candidates.len(), 2);
    assert_eq!(candidates[0].original, b"dir/file");
    assert_eq!(candidates[0].process, 10);
    assert_eq!(candidates[1].path, b"other.cowtree-clone.11.0.1");
    let stale = Sighting { original_exists: true, running: false };
    let active = Sighting { original_exists: true, running: true };
    let orphan = Sighting { original_exists: false, running: false };
    assert_eq!(
        cleanup_stale_clones(&known, &unknown, &vec![stale, active]),
        vec![b"dir/file.cowtree-clone.10.0.1".to_vec()]
    );
    assert!(cleanup_stale_clones(&known, &unknown, &vec![orphan]).is_empty());
}

#[test]
fn timings_are_summed_by_step() {
    let mut timings = CloneTimings::new();
    timings.record(ClonePhase::CloneFile, 5);
    timings.record(ClonePhase::CloneFile, 7);
    timings.record(ClonePhase::SourceLookup, u128::MAX);
    let summary = timings.summary();
    assert_eq!(summary.len(), 9);
    assert_eq!(summary[5], ("APFS clone syscall", 12));
    assert_eq!(summary[0], ("clone source lookup/open", u64::MAX));
    assert_eq!(summary[2].0, "donor hashing");
    timings.record(ClonePhase::SourceLookup, 2);
    assert_eq!(timings.summary()[0].1, 1);
    // In another order the sums are the same.
    let mut other = CloneTimings::new();
    other.record(ClonePhase::SourceLookup, 2);
    other.record(ClonePhase::CloneFile, 7);
    other.record(ClonePhase::SourceLookup, u128::MAX);
    other.record(ClonePhase::CloneFile, 5);
    assert_eq!(other.summary(), timings.summary());
}
