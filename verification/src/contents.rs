//! Holding a cloned directory against the tree that it is to be.
use crate::bytes;
use crate::directory;
use crate::directory::DirectoryFacts;
use crate::error;
use crate::error::{Error, Failure};
use crate::fresh::OpenFacts;
use crate::git;
use crate::git::TreeEntry;
use crate::pathmap::PathMap;
use crate::paths;
use crate::platform::{Identity, Place};
use crate::replace;
use crate::text;
use vstd::prelude::*;
use vstd::string::*;

verus! {

/// The files and directories of a clone, by the paths that they will have.
#[derive(Debug)]
pub struct ClonedDirectory {
    pub files: Vec<(Vec<u8>, Identity)>,
    pub directories: Vec<(Vec<u8>, Place)>,
}

/// What a clone has to hold, by the components below its root: each file with
/// the position of its entry, and each directory.
pub struct Expected {
    pub files: Map<Seq<Seq<u8>>, usize>,
    pub directories: Set<Seq<Seq<u8>>>,
}

/// What the entries of a directory come to.
pub enum Expectation {
    Expected(Expected),
    /// The directory holds something that a clone may not.
    Unsuitable,
    Failed(Failure),
}

/// The directories that lead to a path, the root among them.
pub open spec fn leading_to(parts: Seq<Seq<u8>>) -> Set<Seq<Seq<u8>>> {
    Set::new(|p: Seq<Seq<u8>>| exists|k: int| 0 <= k < parts.len() && p == #[trigger] parts.take(k))
}

/// What the entries of the directory with the components `root` come to.
pub open spec fn expectation(root: Seq<Seq<u8>>, entries: Seq<git::Entry>) -> Expectation
    decreases entries.len(),
{
    if entries.len() == 0 {
        Expectation::Expected(
            Expected { files: Map::empty(), directories: Set::empty().insert(Seq::empty()) },
        )
    } else {
        match expectation(root, entries.drop_last()) {
            Expectation::Expected(before) => {
                let entry = entries.last();
                let parts = paths::components(entry.path);
                let relative = parts.skip(root.len() as int);
                if !entry.regular {
                    Expectation::Unsuitable
                } else if !bytes::has_prefix(parts, root) {
                    Expectation::Failed(Failure::UnsafePath(entry.path))
                } else {
                    Expectation::Expected(
                        Expected {
                            files: before.files.insert(relative, (entries.len() - 1) as usize),
                            directories: before.directories.union(leading_to(relative)),
                        },
                    )
                }
            },
            other => other,
        }
    }
}

proof fn lemma_first_end(root: Seq<Seq<u8>>, entries: Seq<git::Entry>, n: int)
    requires
        0 <= n <= entries.len(),
        !(expectation(root, entries.take(n)) is Expected),
    ensures
        expectation(root, entries) == expectation(root, entries.take(n)),
    decreases entries.len(),
{
    if n < entries.len() {
        assert(entries.drop_last().take(n) =~= entries.take(n));
        lemma_first_end(root, entries.drop_last(), n);
    } else {
        assert(entries.take(n) =~= entries);
    }
}

/// `path` is where the components `key` lead to from `root`.
pub open spec fn is_below(root: Seq<u8>, key: Seq<Seq<u8>>, path: Seq<u8>) -> bool {
    exists|relative: Seq<u8>|
        paths::components(relative) == key && path == #[trigger] paths::joined(root, relative)
}

/// What a file was found to hold: the size that its metadata gave, and what was
/// read from it.
pub struct Content {
    pub size: u64,
    pub bytes: Seq<u8>,
}

/// The walk over a cloned directory.
pub struct Walk {
    root: Vec<u8>,
    paths: Vec<Vec<u8>>,
    oids: Vec<String>,
    files: PathMap<usize>,
    directories: PathMap<bool>,
    examined: Option<Vec<u8>>,
    kept_files: PathMap<bool>,
    kept_directories: PathMap<bool>,
    rejected: bool,
    found: ClonedDirectory,
    listed: Ghost<Seq<(Seq<Seq<u8>>, Kind)>>,
    content: Ghost<Content>,
    contents: Ghost<Seq<Content>>,
    seen_files: Ghost<Seq<Seq<Seq<u8>>>>,
    seen_directories: Ghost<Seq<Seq<Seq<u8>>>>,
}

/// Copies the components from `from` on.
fn components_from(parts: &Vec<Vec<u8>>, from: usize, to: usize) -> (result: Vec<Vec<u8>>)
    requires
        from <= to <= parts@.len(),
    ensures
        bytes::views(result@) == bytes::views(parts@).subrange(from as int, to as int),
{
    let mut result: Vec<Vec<u8>> = Vec::new();
    for i in from..to
        invariant
            from <= to <= parts@.len(),
            bytes::views(result@) == bytes::views(parts@).subrange(from as int, i as int),
    {
        let ghost before = bytes::views(result@);
        let part = bytes::copy(parts[i].as_slice());
        let ghost p = part@;
        result.push(part);
        assert(bytes::views(result@) =~= before.push(p));
        assert(before.push(p) =~= bytes::views(parts@).subrange(from as int, i + 1));
    }
    result
}

/// Begins a walk over the clone that is to become the directory `final_root`
/// with these entries. `None` means that the directory is not to be cloned.
pub fn begin(final_root: &[u8], entries: &Vec<TreeEntry>) -> (result: Result<Option<Walk>, Error>)
    ensures
        match expectation(paths::components(final_root@), git::entries(entries@)) {
            Expectation::Failed(failure) => result matches Err(error) && error@ == failure,
            Expectation::Unsuitable => result matches Ok(None),
            Expectation::Expected(expected) => result matches Ok(Some(walk)) && walk.wf()
                && walk.expected() == expected && walk.seen_files() == Seq::<Seq<Seq<u8>>>::empty()
                && walk.seen_directories() == Seq::<Seq<Seq<u8>>>::empty() && walk.root()
                == final_root@ && walk.examined() is None && !walk.rejected() && walk.listed()
                == Seq::<(Seq<Seq<u8>>, Kind)>::empty() && walk.paths() == Seq::new(
                entries@.len(),
                |i: int| entries@[i].path@,
            ) && walk.oids() == Seq::new(entries@.len(), |i: int| entries@[i].oid@),
        },
{
    let root = paths::split_path(final_root);
    let ghost base = paths::components(final_root@);
    let ghost all = git::entries(entries@);
    let ghost names = Seq::new(entries@.len(), |i: int| entries@[i].path@);
    let ghost objects = Seq::new(entries@.len(), |i: int| entries@[i].oid@);
    let mut paths: Vec<Vec<u8>> = Vec::new();
    let mut oids: Vec<String> = Vec::new();
    let mut files: PathMap<usize> = PathMap::new();
    let mut directories: PathMap<bool> = PathMap::new();
    let top: Vec<Vec<u8>> = Vec::new();
    assert(bytes::views(top@) =~= Seq::<Seq<u8>>::empty());
    directories.put(top, true);
    assert(all.take(0) =~= Seq::<git::Entry>::empty());
    assert(directories@.dom() =~= Set::<Seq<Seq<u8>>>::empty().insert(Seq::empty()));
    for i in 0..entries.len()
        invariant
            base == bytes::views(root@),
            base == paths::components(final_root@),
            all == git::entries(entries@),
            files.wf(),
            directories.wf(),
            expectation(base, all.take(i as int)) == Expectation::Expected(
                Expected { files: files@, directories: directories@.dom() },
            ),
            forall|key: Seq<Seq<u8>>| #[trigger] files@.contains_key(key) ==> files@[key] < i,
            names == Seq::new(entries@.len(), |i: int| entries@[i].path@),
            objects == Seq::new(entries@.len(), |i: int| entries@[i].oid@),
            bytes::views(paths@) == names.take(i as int),
            text::texts(oids@) == objects.take(i as int),
    {
        let entry = &entries[i];
        assert(all.take(i + 1).drop_last() =~= all.take(i as int));
        assert(all.take(i + 1).last() == entry@);
        if !entry.regular {
            proof {
                lemma_first_end(base, all, i + 1);
            }
            return Ok(None);
        }
        let parts = paths::split_path(entry.path.as_slice());
        let ghost whole = paths::components(entry.path@);
        if !paths::lies_in(entry.path.as_slice(), final_root) {
            proof {
                lemma_first_end(base, all, i + 1);
            }
            return Err(Error::UnsafePath(bytes::copy(entry.path.as_slice())));
        }
        let n: usize = parts.len();
        let start: usize = root.len();
        let ghost relative = whole.skip(start as int);
        let ghost before = directories@.dom();
        let key = components_from(&parts, start, n);
        assert(bytes::views(key@) =~= relative);
        files.put(key, i);
        for k in start..n
            invariant
                start <= n == parts@.len(),
                whole == bytes::views(parts@),
                relative == whole.skip(start as int),
                directories.wf(),
                directories@.dom() =~= before.union(
                    Set::new(
                        |p: Seq<Seq<u8>>|
                            exists|j: int|
                                0 <= j < k - start && p == #[trigger] relative.take(j),
                    ),
                ),
        {
            let directory = components_from(&parts, start, k);
            assert(bytes::views(directory@) =~= relative.take(k - start));
            directories.put(directory, true);
            proof {
                let now = Set::new(
                    |p: Seq<Seq<u8>>|
                        exists|j: int| 0 <= j < k + 1 - start && p == #[trigger] relative.take(j),
                );
                assert forall|p: Seq<Seq<u8>>| #[trigger] directories@.dom().contains(p)
                    <==> before.union(now).contains(p) by {
                    if p == relative.take(k - start) {
                        assert(now.contains(p));
                    }
                }
                assert(directories@.dom() =~= before.union(now));
            }
        }
        assert(directories@.dom() =~= before.union(leading_to(relative)));
        let ghost some = bytes::views(paths@);
        let ghost others = text::texts(oids@);
        paths.push(bytes::copy(entry.path.as_slice()));
        oids.push(entry.oid.as_str().to_owned());
        assert(bytes::views(paths@) =~= some.push(entry.path@));
        assert(names.take(i + 1) =~= some.push(entry.path@));
        assert(text::texts(oids@) =~= others.push(entry.oid@));
        assert(objects.take(i + 1) =~= others.push(entry.oid@));
    }
    assert(all.take(all.len() as int) =~= all);
    assert(names.take(names.len() as int) =~= names);
    assert(objects.take(objects.len() as int) =~= objects);
    let _ = files.len();
    let _ = directories.len();
    let kept_files: PathMap<bool> = PathMap::new();
    let kept_directories: PathMap<bool> = PathMap::new();
    proof {
        let none = Seq::<Seq<Seq<u8>>>::empty();
        assert(kept_files@.dom() =~= none.to_set());
        assert(kept_directories@.dom() =~= none.to_set());
    }
    let found = ClonedDirectory { files: Vec::new(), directories: Vec::new() };
    Ok(
        Some(
            Walk {
                root: bytes::copy(final_root),
                paths,
                oids,
                files,
                directories,
                examined: None,
                kept_files,
                kept_directories,
                rejected: false,
                found,
                listed: Ghost(Seq::empty()),
                content: Ghost(Content { size: 0, bytes: Seq::empty() }),
                contents: Ghost(Seq::empty()),
                seen_files: Ghost(Seq::empty()),
                seen_directories: Ghost(Seq::empty()),
            },
        ),
    )
}

/// What a directory listing says of an item.
#[derive(Clone, Copy, Debug, PartialEq, Eq, Structural)]
pub enum Kind {
    Directory,
    File,
    Other,
}

/// What is to be done about an item.
#[derive(Clone, Copy, Debug, PartialEq, Eq, Structural)]
pub enum Item {
    Descend,
    /// Examine the file as that of the entry at this position.
    Examine(usize),
    /// The clone holds what the tree does not.
    Reject,
}

impl Walk {
    /// What has to be found.
    pub closed spec fn expected(&self) -> Expected {
        Expected { files: self.files@, directories: self.directories@.dom() }
    }

    /// The files that were kept, in the order of the walk.
    pub closed spec fn seen_files(&self) -> Seq<Seq<Seq<u8>>> {
        self.seen_files@
    }

    /// The directories that were kept, in the order of the walk.
    pub closed spec fn seen_directories(&self) -> Seq<Seq<Seq<u8>>> {
        self.seen_directories@
    }

    /// The directory that the clone is to become.
    pub closed spec fn root(&self) -> Seq<u8> {
        self.root@
    }

    /// What was kept, by the paths that it will have.
    pub closed spec fn found(&self) -> ClonedDirectory {
        self.found
    }

    /// The paths of the entries.
    pub closed spec fn paths(&self) -> Seq<Seq<u8>> {
        bytes::views(self.paths@)
    }

    /// The objects of the entries.
    pub closed spec fn oids(&self) -> Seq<Seq<char>> {
        text::texts(self.oids@)
    }

    /// The file that was examined and may be kept.
    pub closed spec fn examined(&self) -> Option<Seq<Seq<u8>>> {
        match self.examined {
            Some(child) => Some(paths::components(child@)),
            None => None,
        }
    }

    /// What the file that was examined holds.
    pub closed spec fn content(&self) -> Content {
        self.content@
    }

    /// What the files that were kept hold.
    pub closed spec fn contents(&self) -> Seq<Content> {
        self.contents@
    }

    /// The items that the walk came upon.
    pub closed spec fn listed(&self) -> Seq<(Seq<Seq<u8>>, Kind)> {
        self.listed@
    }

    /// The walk came upon something that was not expected.
    pub closed spec fn rejected(&self) -> bool {
        self.rejected
    }

    /// An item is expected: a file of the tree, or a directory of it.
    pub open spec fn is_expected(&self, item: (Seq<Seq<u8>>, Kind)) -> bool {
        match item.1 {
            Kind::Directory => self.expected().directories.contains(item.0),
            Kind::File => self.expected().files.contains_key(item.0),
            Kind::Other => false,
        }
    }

    /// The object of the file with these components.
    pub open spec fn object(&self, key: Seq<Seq<u8>>) -> Seq<char> {
        self.oids()[self.expected().files[key] as int]
    }

    /// A file may still be kept: it is expected, and was not kept yet.
    pub open spec fn is_wanted(&self, key: Seq<Seq<u8>>) -> bool {
        self.expected().files.contains_key(key) && !self.seen_files().contains(key)
    }

    /// Nothing was kept but what was expected, nothing twice, and no file that
    /// does not hold its object.
    pub closed spec fn wf(&self) -> bool {
        &&& self.files.wf()
        &&& self.directories.wf()
        &&& self.kept_files.wf()
        &&& self.kept_directories.wf()
        &&& self.files@.dom().finite()
        &&& self.directories@.dom().finite()
        &&& self.paths@.len() == self.oids@.len()
        &&& forall|key: Seq<Seq<u8>>| #[trigger]
            self.files@.contains_key(key) ==> self.files@[key] < self.paths@.len()
        &&& self.found.files@.len() == self.seen_files@.len()
        &&& self.found.directories@.len() == self.seen_directories@.len()
        &&& self.contents@.len() == self.seen_files@.len()
        &&& self.seen_files@.no_duplicates()
        &&& self.seen_directories@.no_duplicates()
        &&& self.kept_files@.dom() == self.seen_files@.to_set()
        &&& self.kept_directories@.dom() == self.seen_directories@.to_set()
        &&& forall|i: int|
            0 <= i < self.seen_files@.len() ==> self.is_kept(#[trigger] self.seen_files@[i], i)
        &&& forall|i: int|
            0 <= i < self.seen_directories@.len() ==> self.is_kept_directory(
                #[trigger] self.seen_directories@[i],
                i,
            )
        &&& !self.rejected ==> forall|i: int|
            0 <= i < self.listed@.len() ==> self.is_expected(#[trigger] self.listed@[i])
        &&& self.examined() matches Some(key) ==> self.is_wanted(key) && git::is_blob(
            self.content@.size,
            self.content@.bytes,
            self.object(key),
        )
    }

    /// The file kept as number `i` is expected, has its entry's path and holds
    /// its entry's object.
    pub open spec fn is_kept(&self, key: Seq<Seq<u8>>, i: int) -> bool {
        &&& self.expected().files.contains_key(key)
        &&& self.found().files@[i].0@ == self.paths()[self.expected().files[key] as int]
        &&& git::is_blob(self.contents()[i].size, self.contents()[i].bytes, self.object(key))
    }

    /// The directory kept as number `i` is expected, and its path is the one
    /// below the root.
    pub open spec fn is_kept_directory(&self, key: Seq<Seq<u8>>, i: int) -> bool {
        &&& self.expected().directories.contains(key)
        &&& is_below(self.root(), key, self.found().directories@[i].0@)
    }

    /// Nothing but what was examined last differs from `before`.
    pub open spec fn keeps(&self, before: &Walk) -> bool {
        &&& self.wf()
        &&& self.same_tree(before)
        &&& self.seen_files() == before.seen_files()
        &&& self.seen_directories() == before.seen_directories()
        &&& self.contents() == before.contents()
        &&& self.found() == before.found()
        &&& self.same_listing(before)
    }

    /// The tree is that of `before`.
    pub open spec fn same_tree(&self, before: &Walk) -> bool {
        &&& self.expected() == before.expected()
        &&& self.root() == before.root()
        &&& self.paths() == before.paths()
        &&& self.oids() == before.oids()
    }

    /// The walk came upon nothing more than in `before`.
    pub open spec fn same_listing(&self, before: &Walk) -> bool {
        self.listed() == before.listed() && self.rejected() == before.rejected()
    }

    /// What is to be done about an item.
    pub open spec fn course(&self, key: Seq<Seq<u8>>, kind: Kind) -> Item {
        match kind {
            Kind::Directory => Item::Descend,
            Kind::File => if self.expected().files.contains_key(key) {
                Item::Examine(self.expected().files[key])
            } else {
                Item::Reject
            },
            Kind::Other => Item::Reject,
        }
    }

    /// The walk came upon one item more than in `before`.
    pub open spec fn came_upon(&self, before: &Walk, key: Seq<Seq<u8>>, kind: Kind) -> bool {
        &&& self.wf()
        &&& self.same_tree(before)
        &&& self.listed() == before.listed().push((key, kind))
        &&& self.rejected() == (before.rejected() || !before.is_expected((key, kind)))
        &&& self.examined() == before.examined()
        &&& self.content() == before.content()
        &&& self.contents() == before.contents()
        &&& self.seen_files() == before.seen_files()
        &&& self.seen_directories() == before.seen_directories()
        &&& self.found() == before.found()
    }

    /// Whether the file with these components may be kept, or why it cannot be
    /// told.
    pub open spec fn verdict(
        &self,
        key: Seq<Seq<u8>>,
        initial: OpenFacts,
        ordinary: bool,
        content: Result<Vec<u8>, String>,
        after: Result<Identity, String>,
    ) -> Result<bool, Failure> {
        let holds = match content {
            Err(text) => Err::<bool, Failure>(Failure::Io(text@)),
            Ok(bytes) => Ok(git::is_blob(initial.identity.size, bytes@, self.object(key))),
        };
        if self.is_wanted(key) {
            file_verdict(initial, ordinary, holds, replace::look(after))
        } else {
            Ok(false)
        }
    }

    /// A file was examined, to this verdict.
    pub open spec fn looked_at(
        &self,
        before: &Walk,
        key: Seq<Seq<u8>>,
        initial: OpenFacts,
        content: Result<Vec<u8>, String>,
        verdict: Result<bool, Failure>,
    ) -> bool {
        &&& self.keeps(before)
        &&& self.examined() == (if verdict == Ok::<bool, Failure>(true) {
            Some(key)
        } else {
            None
        })
        &&& verdict == Ok::<bool, Failure>(true) ==> self.content() == (Content {
            size: initial.identity.size,
            bytes: content->Ok_0@,
        })
    }

    /// The file that was examined in `before` was kept.
    pub open spec fn kept_file(&self, before: &Walk, identity: Identity) -> bool {
        let key = before.examined()->0;
        &&& self.wf()
        &&& self.same_tree(before)
        &&& self.same_listing(before)
        &&& self.examined() is None
        &&& self.seen_files() == before.seen_files().push(key)
        &&& self.seen_directories() == before.seen_directories()
        &&& self.contents() == before.contents().push(before.content())
        &&& self.found().directories == before.found().directories
        &&& self.found().files@.len() == before.found().files@.len() + 1
        &&& self.found().files@.drop_last() == before.found().files@
        &&& self.found().files@.last().0@ == before.paths()[before.expected().files[key] as int]
        &&& self.found().files@.last().1 == identity
    }

    /// A directory may be kept: it is expected, was not kept yet and is an
    /// ordinary one.
    pub open spec fn may_keep(&self, relative: Seq<u8>, facts: DirectoryFacts, ordinary: bool) -> bool {
        let key = paths::components(relative);
        &&& self.expected().directories.contains(key)
        &&& !self.seen_directories().contains(key)
        &&& directory::is_ordinary(facts, ordinary)
    }

    /// A directory was kept.
    pub open spec fn kept_directory(&self, before: &Walk, relative: Seq<u8>, place: Place) -> bool {
        &&& self.wf()
        &&& self.same_tree(before)
        &&& self.same_listing(before)
        &&& self.examined() == before.examined()
        &&& self.content() == before.content()
        &&& self.contents() == before.contents()
        &&& self.seen_files() == before.seen_files()
        &&& self.seen_directories() == before.seen_directories().push(paths::components(relative))
        &&& self.found().files == before.found().files
        &&& self.found().directories@.len() == before.found().directories@.len() + 1
        &&& self.found().directories@.drop_last() == before.found().directories@
        &&& self.found().directories@.last().0@ == paths::joined(before.root(), relative)
        &&& self.found().directories@.last().1 == place
    }

    /// Whether the directory at `relative` may be entered. An interruption ends
    /// the walk.
    pub fn enter(&self, cancelled: usize, relative: &[u8]) -> (result: Result<bool, Error>)
        requires
            self.wf(),
        ensures
            result is Ok <==> cancelled == 0,
            result matches Ok(yes) ==> yes == self.expected().directories.contains(
                paths::components(relative@),
            ),
            result matches Err(error) ==> error@ == Failure::Message(
                "worktree creation interrupted"@,
            ),
    {
        if cancelled != 0 {
            return Err(error::message("worktree creation interrupted"));
        }
        Ok(self.directories.contains(relative))
    }

    /// What is to be done about the item at `child`. One that is not expected
    /// spoils the walk.
    pub fn item(&mut self, child: &[u8], kind: Kind) -> (item: Item)
        requires
            old(self).wf(),
        ensures
            item == old(self).course(paths::components(child@), kind),
            final(self).came_upon(old(self), paths::components(child@), kind),
    {
        let ghost start = *self;
        let item = match kind {
            Kind::Directory => {
                if !self.directories.contains(child) {
                    self.rejected = true;
                }
                Item::Descend
            },
            Kind::File => match self.files.get(child) {
                Some(entry) => Item::Examine(entry),
                None => {
                    self.rejected = true;
                    Item::Reject
                },
            },
            Kind::Other => {
                self.rejected = true;
                Item::Reject
            },
        };
        self.listed = Ghost(self.listed@.push((paths::components(child@), kind)));
        proof {
            assert forall|i: int| 0 <= i < self.seen_files@.len() implies self.is_kept(
                #[trigger] self.seen_files@[i],
                i,
            ) by {
                assert(start.is_kept(start.seen_files@[i], i));
            }
            assert forall|i: int|
                !self.rejected && 0 <= i < self.listed@.len() implies self.is_expected(
                #[trigger] self.listed@[i],
            ) by {
                if i < start.listed@.len() {
                    assert(start.is_expected(start.listed@[i]));
                }
            }
        }
        item
    }

    /// The position of the entry of an expected file.
    pub fn position(&self, child: &[u8]) -> (position: Option<usize>)
        requires
            self.wf(),
        ensures
            position == (if self.expected().files.contains_key(paths::components(child@)) {
                Some(self.expected().files[paths::components(child@)])
            } else {
                None
            }),
            position matches Some(at) ==> at < self.paths().len(),
    {
        self.files.get(child)
    }

    /// Examines the file at `child`: it may be kept where it is expected and was
    /// not kept yet, is an ordinary file that holds its entry's object, and did
    /// not change while it was read. `content` is what was read.
    pub fn examine(
        &mut self,
        child: &[u8],
        initial: OpenFacts,
        ordinary: bool,
        content: Result<Vec<u8>, String>,
        after: Result<Identity, String>,
    ) -> (result: Result<bool, Error>)
        requires
            old(self).wf(),
        ensures
            ({
                let key = paths::components(child@);
                let verdict = old(self).verdict(key, initial, ordinary, content, after);
                &&& replace::verified_view(result) == verdict
                &&& final(self).looked_at(old(self), key, initial, content, verdict)
            }),
    {
        self.examined = None;
        let ghost key = paths::components(child@);
        assert(self.seen_files@.to_set().contains(key) == self.seen_files@.contains(key));
        let position: usize = match self.files.get(child) {
            None => {
                return Ok(false);
            },
            Some(position) => position,
        };
        if self.kept_files.contains(child) {
            return Ok(false);
        }
        assert(self.object(key) == self.oids@[position as int]@);
        let ghost read = content;
        let holds = match content {
            Err(text) => Err(Error::Io(text)),
            Ok(bytes) => Ok(
                git::blob_matches(
                    true,
                    initial.identity.size,
                    bytes.as_slice(),
                    self.oids[position].as_str(),
                ),
            ),
        };
        let result = file_examined(initial, ordinary, holds, after);
        if let Ok(true) = result {
            self.content = Ghost(
                Content { size: initial.identity.size, bytes: read->Ok_0@ },
            );
            self.examined = Some(bytes::copy(child));
        }
        result
    }

    /// Keeps the file that was examined last, where it may be kept.
    pub fn keep_file(&mut self, identity: Identity) -> (kept: bool)
        requires
            old(self).wf(),
        ensures
            final(self).wf(),
            kept == (old(self).examined() is Some),
            !kept ==> *final(self) == *old(self),
            kept ==> final(self).kept_file(old(self), identity),
    {
        let ghost start = *self;
        let mut examined: Option<Vec<u8>> = None;
        std::mem::swap(&mut examined, &mut self.examined);
        let child = match examined {
            None => {
                return false;
            },
            Some(child) => child,
        };
        let ghost key = paths::components(child@);
        let position: usize = match self.files.get(child.as_slice()) {
            None => 0,
            Some(position) => position,
        };
        let path = bytes::copy(self.paths[position].as_slice());
        assert(path@ == self.paths()[position as int]);
        let ghost before = self.found.files@;
        let ghost seen = self.seen_files@;
        self.found.files.push((path, identity));
        self.kept_files.insert(child.as_slice(), true);
        self.seen_files = Ghost(self.seen_files@.push(key));
        self.contents = Ghost(self.contents@.push(self.content@));
        proof {
            assert(self.found.files@.drop_last() =~= before);
            assert(!seen.contains(key));
            lemma_push_distinct(seen, key);
            assert(self.kept_files@.dom() =~= seen.push(key).to_set());
            assert forall|i: int| 0 <= i < self.seen_files@.len() implies self.is_kept(
                #[trigger] self.seen_files@[i],
                i,
            ) by {
                if i < seen.len() {
                    assert(self.seen_files@[i] == seen[i]);
                    assert(start.is_kept(seen[i], i));
                    assert(self.found.files@[i] == before[i]);
                }
            }
        }
        true
    }

    /// Keeps a directory all of whose items were kept, where it is expected, was
    /// not kept yet and is an ordinary one.
    pub fn keep_directory(
        &mut self,
        relative: &[u8],
        facts: DirectoryFacts,
        ordinary: bool,
        place: Place,
    ) -> (kept: bool)
        requires
            old(self).wf(),
        ensures
            final(self).wf(),
            kept == old(self).may_keep(relative@, facts, ordinary),
            !kept ==> *final(self) == *old(self),
            kept ==> final(self).kept_directory(old(self), relative@, place),
    {
        let ghost key = paths::components(relative@);
        let ghost seen = self.seen_directories@;
        assert(seen.to_set().contains(key) == seen.contains(key));
        if !self.directories.contains(relative) || self.kept_directories.contains(relative) {
            return false;
        }
        if !may_stay(facts, ordinary) {
            return false;
        }
        let ghost start = *self;
        let path = paths::join(self.root.as_slice(), relative);
        let ghost before = self.found.directories@;
        self.found.directories.push((path, place));
        self.kept_directories.insert(relative, true);
        self.seen_directories = Ghost(self.seen_directories@.push(key));
        proof {
            assert(self.found.directories@.drop_last() =~= before);
            lemma_push_distinct(seen, key);
            assert(self.kept_directories@.dom() =~= seen.push(key).to_set());
            assert forall|i: int|
                0 <= i < self.seen_directories@.len() implies self.is_kept_directory(
                #[trigger] self.seen_directories@[i],
                i,
            ) by {
                if i < seen.len() {
                    assert(self.seen_directories@[i] == seen[i]);
                    assert(start.is_kept_directory(seen[i], i));
                    assert(self.found.directories@[i] == before[i]);
                } else {
                    assert(self.found.directories@[i].0@ == paths::joined(self.root(), relative@));
                }
            }
            assert forall|i: int| 0 <= i < self.seen_files@.len() implies self.is_kept(
                #[trigger] self.seen_files@[i],
                i,
            ) by {
                assert(start.is_kept(start.seen_files@[i], i));
            }
        }
        true
    }

    /// What was kept, where that is everything expected and the walk came upon
    /// nothing else.
    pub fn finish(self) -> (result: Option<ClonedDirectory>)
        requires
            self.wf(),
        ensures
            result is Some <==> self.complete(),
            result matches Some(found) ==> found == self.found(),
    {
        let files = self.files.len();
        let directories = self.directories.len();
        proof {
            assert(self.expected().files.dom() =~= self.files@.dom());
        }
        if !self.rejected && self.found.files.len() == files && self.found.directories.len()
            == directories {
            Some(self.found)
        } else {
            None
        }
    }

    /// As many files and directories were kept as were expected, and the walk
    /// came upon nothing else.
    pub open spec fn complete(&self) -> bool {
        &&& !self.rejected()
        &&& self.expected().files.dom().len() == self.seen_files().len()
        &&& self.expected().directories.len() == self.seen_directories().len()
    }

    /// A walk that is complete came upon nothing but the files and directories of
    /// the tree, and has kept exactly these, each once. Each file has its entry's
    /// path, and held its entry's object.
    pub proof fn complete_walk_holds_the_tree(&self)
        requires
            self.wf(),
            self.complete(),
        ensures
            self.seen_files().no_duplicates(),
            self.seen_files().to_set() == self.expected().files.dom(),
            self.seen_directories().no_duplicates(),
            self.seen_directories().to_set() == self.expected().directories,
            self.found().files@.len() == self.seen_files().len(),
            self.found().directories@.len() == self.seen_directories().len(),
            forall|i: int|
                0 <= i < self.seen_files().len() ==> self.is_kept(
                    #[trigger] self.seen_files()[i],
                    i,
                ),
            forall|i: int|
                0 <= i < self.seen_directories().len() ==> self.is_kept_directory(
                    #[trigger] self.seen_directories()[i],
                    i,
                ),
            forall|i: int|
                0 <= i < self.listed().len() ==> self.is_expected(#[trigger] self.listed()[i]),
    {
        assert forall|i: int|
            0 <= i < self.seen_files().len() implies self.expected().files.dom().contains(
            #[trigger] self.seen_files()[i],
        ) by {
            assert(self.is_kept(self.seen_files@[i], i));
        }
        lemma_all_of(self.seen_files(), self.expected().files.dom());
        lemma_all_of(self.seen_directories(), self.expected().directories);
    }
}

proof fn lemma_push_distinct(list: Seq<Seq<Seq<u8>>>, key: Seq<Seq<u8>>)
    requires
        list.no_duplicates(),
        !list.contains(key),
    ensures
        list.push(key).no_duplicates(),
        list.push(key).to_set() == list.to_set().insert(key),
{
    let grown = list.push(key);
    assert forall|i: int, j: int|
        0 <= i < grown.len() && 0 <= j < grown.len() && i != j implies grown[i] != grown[j] by {
        if i < list.len() {
            assert(list.contains(list[i]));
        }
        if j < list.len() {
            assert(list.contains(list[j]));
        }
    }
    assert forall|x: Seq<Seq<u8>>| #[trigger] grown.to_set().contains(x) <==> list.to_set().insert(
        key,
    ).contains(x) by {
        if list.contains(x) {
            let k = choose|k: int| 0 <= k < list.len() && list[k] == x;
            assert(grown[k] == x);
        }
        if x == key {
            assert(grown[list.len() as int] == x);
        }
    }
    assert(grown.to_set() =~= list.to_set().insert(key));
}

proof fn lemma_all_of(list: Seq<Seq<Seq<u8>>>, set: Set<Seq<Seq<u8>>>)
    requires
        set.finite(),
        list.no_duplicates(),
        list.len() == set.len(),
        forall|i: int| 0 <= i < list.len() ==> set.contains(#[trigger] list[i]),
    ensures
        list.to_set() == set,
{
    list.unique_seq_to_set();
    assert(list.to_set().subset_of(set));
    vstd::set_lib::lemma_subset_equality(list.to_set(), set);
}

/// Whether an open directory of the clone may stay: an ordinary one.
pub fn may_stay(facts: DirectoryFacts, ordinary: bool) -> (yes: bool)
    ensures
        yes == directory::is_ordinary(facts, ordinary),
{
    facts.directory && facts.flags == 0 && ordinary
}

/// The permissions that something has to get, where it does not have them.
pub open spec fn mode_to_set(current: u32, wanted: u32) -> Option<u32> {
    if current & 0o7777 != wanted {
        Some(wanted)
    } else {
        None
    }
}

/// The permissions that something has to get, where it does not have them.
pub fn mode_fix(current: u32, wanted: u32) -> (fix: Option<u32>)
    ensures
        fix == mode_to_set(current, wanted),
{
    if current & 0o7777 != wanted {
        Some(wanted)
    } else {
        None
    }
}

pub open spec fn file_verdict(
    initial: OpenFacts,
    ordinary: bool,
    holds: Result<bool, Failure>,
    after: Result<Identity, Seq<char>>,
) -> Result<bool, Failure> {
    if !initial.regular || initial.flags != 0 || !ordinary {
        Ok(false)
    } else {
        match holds {
            Err(failure) => Err(failure),
            Ok(false) => Ok(false),
            Ok(true) => match after {
                Err(text) => Err(Failure::Io(text)),
                Ok(after) => Ok(after == initial.identity),
            },
        }
    }
}

/// Whether an examined file is the one expected: an ordinary file that holds
/// the object and did not change while it was read.
pub fn file_examined(
    initial: OpenFacts,
    ordinary: bool,
    holds: Result<bool, Error>,
    after: Result<Identity, String>,
) -> (result: Result<bool, Error>)
    ensures
        replace::verified_view(result) == file_verdict(
            initial,
            ordinary,
            replace::verified_view(holds),
            replace::look(after),
        ),
{
    if !initial.regular || initial.flags != 0 || !ordinary {
        return Ok(false);
    }
    match holds {
        Err(error) => Err(error),
        Ok(false) => Ok(false),
        Ok(true) => match after {
            Err(text) => Err(Error::Io(text)),
            Ok(after) => Ok(after == initial.identity),
        },
    }
}

/// A tree can be expected where every entry is a regular file below the root.
/// Otherwise the first that is not decides: one that is no regular file makes the
/// tree unsuitable, and one outside the root is an error.
pub proof fn the_first_unsuitable_entry_decides(
    root: Seq<Seq<u8>>,
    entries: Seq<git::Entry>,
    i: int,
)
    ensures
        expectation(root, entries) is Expected <==> forall|k: int|
            0 <= k < entries.len() ==> (#[trigger] entries[k]).regular && bytes::has_prefix(
                paths::components(entries[k].path),
                root,
            ),
        (0 <= i < entries.len() && forall|k: int|
            0 <= k < i ==> (#[trigger] entries[k]).regular && bytes::has_prefix(
                paths::components(entries[k].path),
                root,
            )) ==> {
            &&& !entries[i].regular ==> expectation(root, entries) == Expectation::Unsuitable
            &&& entries[i].regular && !bytes::has_prefix(paths::components(entries[i].path), root)
                ==> expectation(root, entries) == Expectation::Failed(
                Failure::UnsafePath(entries[i].path),
            )
        },
    decreases entries.len(),
{
    if entries.len() > 0 {
        let init = entries.drop_last();
        assert(forall|k: int| 0 <= k < init.len() ==> #[trigger] init[k] == entries[k]);
        assert(entries[entries.len() - 1] == entries.last());
        the_first_unsuitable_entry_decides(root, init, i);
        if expectation(root, init) is Expected {
            assert forall|k: int| 0 <= k < init.len() implies (#[trigger] entries[k]).regular
                && bytes::has_prefix(paths::components(entries[k].path), root) by {
                assert(init[k] == entries[k]);
            }
        } else {
            let k = choose|k: int|
                0 <= k < init.len() && !((#[trigger] init[k]).regular && bytes::has_prefix(
                    paths::components(init[k].path),
                    root,
                ));
            assert(entries[k] == init[k]);
        }
    }
}

/// The files that are expected are those of the entries, by what comes behind the
/// root, each for the last entry of its path; the directories are the root and
/// all that lead to a file.
pub proof fn expected_files_are_those_of_the_tree(
    root: Seq<Seq<u8>>,
    entries: Seq<git::Entry>,
    key: Seq<Seq<u8>>,
    i: int,
)
    requires
        expectation(root, entries) is Expected,
        entries.len() <= usize::MAX,
    ensures
        ({
            let expected = expectation(root, entries)->Expected_0;
            &&& (0 <= i < entries.len() && paths::components(entries[i].path) == root + key
                && forall|j: int|
                i < j < entries.len() ==> paths::components((#[trigger] entries[j]).path) != root
                    + key) ==> expected.files.contains_key(key) && expected.files[key] == i
            &&& (forall|j: int|
                0 <= j < entries.len() ==> paths::components((#[trigger] entries[j]).path) != root
                    + key) ==> !expected.files.contains_key(key)
            &&& expected.directories.contains(key) <==> key.len() == 0 || exists|j: int, rest: Seq<
                Seq<u8>,
            >|
                0 <= j < entries.len() && rest.len() > 0 && #[trigger] paths::components(
                    entries[j].path,
                ) == #[trigger] (root + key + rest)
        }),
    decreases entries.len(),
{
    if key.len() == 0 {
        assert(key =~= Seq::<Seq<u8>>::empty());
    }
    if entries.len() > 0 {
        let init = entries.drop_last();
        let n = entries.len() - 1;
        let last = entries[n];
        assert(last == entries.last());
        assert(forall|k: int| 0 <= k < init.len() ==> #[trigger] init[k] == entries[k]);
        expected_files_are_those_of_the_tree(root, init, key, i);
        let parts = paths::components(last.path);
        let relative = parts.skip(root.len() as int);
        let before = expectation(root, init)->Expected_0;
        let expected = expectation(root, entries)->Expected_0;
        assert(bytes::has_prefix(parts, root));
        assert(parts =~= root + relative) by {
            assert(parts.take(root.len() as int) == root);
            assert(parts =~= parts.take(root.len() as int) + relative);
        }
        assert(parts == root + key <==> relative == key) by {
            if parts == root + key {
                assert(relative =~= key);
            }
        }
        assert(leading_to(relative).contains(key) <==> exists|rest: Seq<Seq<u8>>|
            rest.len() > 0 && parts == #[trigger] (root + key + rest)) by {
            if leading_to(relative).contains(key) {
                let k = choose|k: int| 0 <= k < relative.len() && key == #[trigger] relative.take(
                    k,
                );
                let rest = relative.skip(k);
                assert(root + key + rest =~= parts);
                assert(rest.len() > 0 && parts == root + key + rest);
            }
            if exists|rest: Seq<Seq<u8>>| rest.len() > 0 && parts == #[trigger] (root + key + rest) {
                let rest = choose|rest: Seq<Seq<u8>>|
                    rest.len() > 0 && parts == #[trigger] (root + key + rest);
                assert(relative =~= key + rest);
                assert(relative.take(key.len() as int) =~= key);
                assert(0 <= key.len() < relative.len());
            }
        }
        if before.directories.contains(key) && key.len() > 0 {
            let (j, rest) = choose|j: int, rest: Seq<Seq<u8>>|
                0 <= j < init.len() && rest.len() > 0 && #[trigger] paths::components(init[j].path)
                    == #[trigger] (root + key + rest);
            assert(paths::components(entries[j].path) == root + key + rest);
        }
        if leading_to(relative).contains(key) {
            let rest = choose|rest: Seq<Seq<u8>>|
                rest.len() > 0 && parts == #[trigger] (root + key + rest);
            assert(paths::components(entries[n].path) == root + key + rest);
        }
        if exists|j: int, rest: Seq<Seq<u8>>|
            0 <= j < entries.len() && rest.len() > 0 && #[trigger] paths::components(
                entries[j].path,
            ) == #[trigger] (root + key + rest) {
            let (j, rest) = choose|j: int, rest: Seq<Seq<u8>>|
                0 <= j < entries.len() && rest.len() > 0 && #[trigger] paths::components(
                    entries[j].path,
                ) == #[trigger] (root + key + rest);
            if j < n {
                assert(paths::components(init[j].path) == root + key + rest);
            } else {
                assert(parts == root + key + rest);
            }
        }
    }
}

/// A mode is set where the lowest twelve bits are not as wanted.
pub proof fn modes_are_set_where_they_differ(current: u32, wanted: u32)
    ensures
        current % 4096 == wanted ==> mode_to_set(current, wanted) is None,
        current % 4096 != wanted ==> mode_to_set(current, wanted) == Some(wanted),
{
    assert(current & 0o7777 == current % 4096) by (bit_vector);
}

/// A file is accepted where it is an ordinary regular one that holds its object
/// and is the same afterwards.
pub proof fn files_are_accepted_when_they_hold(
    initial: OpenFacts,
    ordinary: bool,
    holds: Result<bool, Failure>,
    after: Result<Identity, Seq<char>>,
)
    ensures
        ({
            let plain = initial.regular && initial.flags == 0 && ordinary;
            let verdict = file_verdict(initial, ordinary, holds, after);
            &&& verdict == Ok::<bool, Failure>(true) <==> plain && holds == Ok::<bool, Failure>(
                true,
            ) && after == Ok::<Identity, Seq<char>>(initial.identity)
            &&& plain && holds is Err ==> verdict == Err::<bool, Failure>(holds->Err_0)
            &&& plain && holds == Ok::<bool, Failure>(true) && after is Err ==> verdict == Err::<
                bool,
                Failure,
            >(Failure::Io(after->Err_0))
            &&& !plain || holds == Ok::<bool, Failure>(false) ==> verdict == Ok::<bool, Failure>(
                false,
            )
        }),
{
}

impl Walk {
    /// What the walk comes upon decides what is done: a directory is entered, a
    /// file of the tree is examined, and anything else is not of the tree.
    pub proof fn files_of_the_tree_are_examined(&self, key: Seq<Seq<u8>>)
        ensures
            self.course(key, Kind::Directory) == Item::Descend,
            self.expected().files.contains_key(key) ==> self.course(key, Kind::File)
                == Item::Examine(self.expected().files[key]),
            !self.expected().files.contains_key(key) ==> self.course(key, Kind::File)
                == Item::Reject,
            self.course(key, Kind::Other) == Item::Reject,
    {
    }

    /// A file of the tree is kept once, where it is an ordinary regular one, holds
    /// the object of its entry and did not change.
    pub proof fn files_are_kept_when_they_hold(
        &self,
        key: Seq<Seq<u8>>,
        initial: OpenFacts,
        ordinary: bool,
        content: Result<Vec<u8>, String>,
        after: Result<Identity, String>,
    )
        ensures
            self.verdict(key, initial, ordinary, content, after) == Ok::<bool, Failure>(true) <==> {
                &&& self.expected().files.contains_key(key)
                &&& !self.seen_files().contains(key)
                &&& initial.regular && initial.flags == 0 && ordinary
                &&& content is Ok && git::is_blob(
                    initial.identity.size,
                    content->Ok_0@,
                    self.oids()[self.expected().files[key] as int],
                )
                &&& after == Ok::<Identity, String>(initial.identity)
            },
    {
    }

    /// A directory of the tree is kept once, where it is an ordinary one.
    pub proof fn directories_are_kept_once(
        &self,
        relative: Seq<u8>,
        facts: DirectoryFacts,
        ordinary: bool,
    )
        ensures
            self.may_keep(relative, facts, ordinary) <==> {
                &&& self.expected().directories.contains(paths::components(relative))
                &&& !self.seen_directories().contains(paths::components(relative))
                &&& facts.directory && facts.flags == 0 && ordinary
            },
    {
    }

    /// A walk is complete once it has kept every file and directory of the tree
    /// and came upon nothing else.
    pub proof fn walk_with_every_file_is_complete(&self)
        requires
            self.wf(),
            !self.rejected(),
            forall|key: Seq<Seq<u8>>| #[trigger]
                self.expected().files.contains_key(key) ==> self.seen_files().contains(key),
            forall|key: Seq<Seq<u8>>| #[trigger]
                self.expected().directories.contains(key) ==> self.seen_directories().contains(key),
        ensures
            self.complete(),
    {
        let files = self.expected().files.dom();
        assert forall|i: int|
            0 <= i < self.seen_files().len() implies files.contains(
            #[trigger] self.seen_files()[i],
        ) by {
            assert(self.is_kept(self.seen_files@[i], i));
        }
        assert forall|i: int|
            0 <= i < self.seen_directories().len() implies self.expected().directories.contains(
            #[trigger] self.seen_directories()[i],
        ) by {
            assert(self.is_kept_directory(self.seen_directories@[i], i));
        }
        assert(self.seen_files().to_set() =~= files) by {
            assert forall|key: Seq<Seq<u8>>| files.contains(key) implies self.seen_files().contains(
                key,
            ) by {
                assert(self.expected().files.contains_key(key));
            }
        }
        assert(self.seen_directories().to_set() =~= self.expected().directories);
        self.seen_files().unique_seq_to_set();
        self.seen_directories().unique_seq_to_set();
    }
}

impl Walk {
    /// What the walk comes upon is noted, and what is not of the tree spoils it.
    pub proof fn strangers_spoil_the_walk(&self, before: &Walk, key: Seq<Seq<u8>>, kind: Kind)
        requires
            self.came_upon(before, key, kind),
        ensures
            self.listed() == before.listed().push((key, kind)),
            before.rejected() ==> self.rejected(),
            kind is Other ==> self.rejected(),
            kind is File && !before.expected().files.contains_key(key) ==> self.rejected(),
            kind is Directory && !before.expected().directories.contains(key) ==> self.rejected(),
            !before.rejected() && kind is File && before.expected().files.contains_key(key)
                ==> !self.rejected(),
            !before.rejected() && kind is Directory && before.expected().directories.contains(key)
                ==> !self.rejected(),
            self.seen_files() == before.seen_files(),
            self.seen_directories() == before.seen_directories(),
            self.expected() == before.expected(),
    {
    }

    /// An examined file that was accepted is the one to keep, with its content;
    /// nothing is kept before.
    pub proof fn accepted_files_are_next(
        &self,
        before: &Walk,
        key: Seq<Seq<u8>>,
        initial: OpenFacts,
        content: Result<Vec<u8>, String>,
        verdict: Result<bool, Failure>,
    )
        requires
            self.looked_at(before, key, initial, content, verdict),
        ensures
            verdict == Ok::<bool, Failure>(true) ==> self.examined() == Some(key)
                && self.content().size == initial.identity.size && self.content().bytes
                == content->Ok_0@,
            verdict != Ok::<bool, Failure>(true) ==> self.examined() is None,
            self.seen_files() == before.seen_files(),
            self.seen_directories() == before.seen_directories(),
            self.found() == before.found(),
            self.rejected() == before.rejected(),
            self.expected() == before.expected(),
    {
    }

    /// A file that is kept is found under its entry's path with its identity,
    /// behind those before.
    pub proof fn kept_files_are_found(&self, before: &Walk, identity: Identity)
        requires
            self.kept_file(before, identity),
            before.examined() is Some,
        ensures
            ({
                let key = before.examined()->0;
                let n = before.found().files@.len() as int;
                &&& self.seen_files() == before.seen_files().push(key)
                &&& self.found().files@.len() == n + 1
                &&& self.found().files@[n].0@ == before.paths()[before.expected().files[key] as int]
                &&& self.found().files@[n].1 == identity
                &&& forall|i: int|
                    0 <= i < n ==> #[trigger] self.found().files@[i] == before.found().files@[i]
                &&& self.found().directories == before.found().directories
                &&& self.seen_directories() == before.seen_directories()
                &&& self.examined() is None
                &&& self.rejected() == before.rejected()
            }),
    {
        let n = before.found().files@.len() as int;
        assert forall|i: int| 0 <= i < n implies #[trigger] self.found().files@[i]
            == before.found().files@[i] by {
            assert(self.found().files@.drop_last()[i] == self.found().files@[i]);
        }
    }

    /// A directory that is kept is found below the root with its place, behind
    /// those before.
    pub proof fn kept_directories_are_found(&self, before: &Walk, relative: Seq<u8>, place: Place)
        requires
            self.kept_directory(before, relative, place),
        ensures
            ({
                let n = before.found().directories@.len() as int;
                &&& self.seen_directories() == before.seen_directories().push(
                    paths::components(relative),
                )
                &&& self.found().directories@.len() == n + 1
                &&& self.found().directories@[n].0@ == paths::joined(before.root(), relative)
                &&& self.found().directories@[n].1 == place
                &&& forall|i: int|
                    0 <= i < n ==> #[trigger] self.found().directories@[i]
                        == before.found().directories@[i]
                &&& self.found().files == before.found().files
                &&& self.seen_files() == before.seen_files()
                &&& self.rejected() == before.rejected()
            }),
    {
        let n = before.found().directories@.len() as int;
        assert forall|i: int| 0 <= i < n implies #[trigger] self.found().directories@[i]
            == before.found().directories@[i] by {
            assert(self.found().directories@.drop_last()[i] == self.found().directories@[i]);
        }
    }
}

} // verus!
