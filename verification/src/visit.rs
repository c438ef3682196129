//! The order in which a cloned directory is walked.
use crate::bytes;
use crate::contents;
use crate::contents::{ClonedDirectory, Item, Kind, Walk};
use crate::directory;
use crate::directory::DirectoryFacts;
use crate::error::{Error, Failure};
use crate::fresh::OpenFacts;
use crate::git;
use crate::git::TreeEntry;
use crate::paths;
use crate::platform;
use crate::platform::{Identity, Place};
use crate::replace;
use vstd::prelude::*;

verus! {

/// A directory that is being walked, and what was seen of it when it was opened.
struct Frame {
    relative: Vec<u8>,
    facts: DirectoryFacts,
    plain: bool,
}

/// What a frame says.
pub struct OpenDirectory {
    pub relative: Seq<u8>,
    pub facts: DirectoryFacts,
    pub plain: bool,
}

spec fn frames(list: Seq<Frame>) -> Seq<OpenDirectory> {
    Seq::new(
        list.len(),
        |i: int|
            OpenDirectory {
                relative: list[i].relative@,
                facts: list[i].facts,
                plain: list[i].plain,
            },
    )
}

/// What is to be done next.
#[derive(Debug)]
pub enum VisitStep {
    /// Open the directory below the root of the clone, and inspect it.
    Open { relative: Vec<u8> },
    /// Give the directory that was opened last these permissions, where there
    /// are any, and read its next item.
    Read { mode: Option<u32> },
    /// Open the file below the root of the clone, and read and inspect it.
    Examine { child: Vec<u8> },
    /// Give the file that was examined these permissions, where there are any,
    /// set its times and inspect it.
    Keep { mode: Option<u32> },
    /// Set the times of the directory that was opened last, inspect it and close
    /// it.
    Leave,
    Finished(Result<bool, Error>),
}

/// What a step says.
pub enum VisitPlan {
    Open(Seq<u8>),
    Read(Option<u32>),
    Examine(Seq<u8>),
    Keep(Option<u32>),
    Leave,
    Finished(Result<bool, Failure>),
}

impl View for VisitStep {
    type V = VisitPlan;

    open spec fn view(&self) -> VisitPlan {
        match *self {
            VisitStep::Open { relative } => VisitPlan::Open(relative@),
            VisitStep::Read { mode } => VisitPlan::Read(mode),
            VisitStep::Examine { child } => VisitPlan::Examine(child@),
            VisitStep::Keep { mode } => VisitPlan::Keep(mode),
            VisitStep::Leave => VisitPlan::Leave,
            VisitStep::Finished(result) => VisitPlan::Finished(replace::verified_view(result)),
        }
    }
}

/// A walk over a cloned directory, with the directories that it is in.
pub struct Visit {
    walk: Walk,
    mask: u32,
    executables: Vec<bool>,
    pending: Vec<u8>,
    open: Vec<Frame>,
}

/// What was seen of a file that could be opened.
pub struct FileSeen {
    /// Its state and its permissions before it was read.
    pub initial: Result<(OpenFacts, u32), String>,
    pub ordinary: bool,
    pub content: Result<Vec<u8>, String>,
    pub after: Result<Identity, String>,
}

/// Entering the directory at `relative`: an interruption ends the walk, and so
/// does a directory that is not expected.
pub open spec fn entering(walk: Walk, cancelled: usize, relative: Seq<u8>) -> VisitPlan {
    if cancelled != 0 {
        VisitPlan::Finished(Err(Failure::Message("worktree creation interrupted"@)))
    } else if walk.expected().directories.contains(paths::components(relative)) {
        VisitPlan::Open(relative)
    } else {
        VisitPlan::Finished(Ok(false))
    }
}

fn enter(walk: &Walk, cancelled: usize, relative: &[u8]) -> (step: VisitStep)
    requires
        walk.wf(),
    ensures
        step@ == entering(*walk, cancelled, relative@),
{
    match walk.enter(cancelled, relative) {
        Err(error) => VisitStep::Finished(Err(error)),
        Ok(false) => VisitStep::Finished(Ok(false)),
        Ok(true) => VisitStep::Open { relative: bytes::copy(relative) },
    }
}

/// Begins to walk a clone that is to hold the entries below `final_root`. `None`
/// means that the entries hold something that a clone may not.
pub fn start(final_root: &[u8], entries: &Vec<TreeEntry>, mask: u32, cancelled: usize) -> (result:
    Result<Option<(Visit, VisitStep)>, Error>)
    ensures
        match contents::expectation(paths::components(final_root@), git::entries(entries@)) {
            contents::Expectation::Failed(failure) => result matches Err(error) && error@
                == failure,
            contents::Expectation::Unsuitable => result matches Ok(None),
            contents::Expectation::Expected(expected) => result matches Ok(Some((visit, step)))
                && visit.wf() && visit.walk().expected() == expected && visit.walk().root()
                == final_root@ && visit.walk().seen_files() == Seq::<Seq<Seq<u8>>>::empty()
                && visit.walk().seen_directories() == Seq::<Seq<Seq<u8>>>::empty()
                && !visit.walk().rejected() && visit.walk().listed() == Seq::<
                (Seq<Seq<u8>>, Kind),
            >::empty() && visit.walk().examined() is None && visit.walk().paths() == Seq::new(
                entries@.len(),
                |i: int| entries@[i].path@,
            ) && visit.walk().oids() == Seq::new(entries@.len(), |i: int| entries@[i].oid@)
                && visit.executables() == Seq::new(
                entries@.len(),
                |i: int| entries@[i].executable,
            ) && visit.mask() == mask && visit.open() == Seq::<OpenDirectory>::empty()
                && visit.pending() == Seq::<u8>::empty() && step@ == entering(
                visit.walk(),
                cancelled,
                Seq::empty(),
            ),
        },
{
    let walk = match contents::begin(final_root, entries)? {
        None => {
            return Ok(None);
        },
        Some(walk) => walk,
    };
    let mut executables: Vec<bool> = Vec::new();
    for i in 0..entries.len()
        invariant
            executables@ == Seq::new(i as nat, |k: int| entries@[k].executable),
    {
        executables.push(entries[i].executable);
        assert(executables@ =~= Seq::new((i + 1) as nat, |k: int| entries@[k].executable));
    }
    let pending: Vec<u8> = Vec::new();
    let step = enter(&walk, cancelled, pending.as_slice());
    let open: Vec<Frame> = Vec::new();
    assert(frames(open@) =~= Seq::<OpenDirectory>::empty());
    assert(pending@ =~= Seq::<u8>::empty());
    Ok(Some((Visit { walk, mask, executables, pending, open }, step)))
}

impl Visit {
    /// The walk so far.
    pub closed spec fn walk(&self) -> Walk {
        self.walk
    }

    pub closed spec fn mask(&self) -> u32 {
        self.mask
    }

    /// Which entries are executable.
    pub closed spec fn executables(&self) -> Seq<bool> {
        self.executables@
    }

    /// The directory that is to be opened, or the file that is to be examined.
    pub closed spec fn pending(&self) -> Seq<u8> {
        self.pending@
    }

    /// The directories that the walk is in, the innermost last.
    pub closed spec fn open(&self) -> Seq<OpenDirectory> {
        frames(self.open@)
    }

    pub open spec fn wf(&self) -> bool {
        &&& self.walk().wf()
        &&& self.executables().len() == self.walk().paths().len()
    }

    /// Nothing but the walk and what is pending differs from `before`.
    pub open spec fn same_place(&self, before: &Visit) -> bool {
        &&& self.wf()
        &&& self.mask() == before.mask()
        &&& self.executables() == before.executables()
        &&& self.open() == before.open()
    }

    /// What follows the opening of a directory: one that cannot be opened or is
    /// not an ordinary one ends the walk.
    pub open spec fn after_opening(
        &self,
        found: Option<(Result<DirectoryFacts, String>, bool)>,
    ) -> VisitPlan {
        match found {
            None => VisitPlan::Finished(Ok(false)),
            Some((Err(text), _)) => VisitPlan::Finished(Err(Failure::Io(text@))),
            Some((Ok(facts), plain)) => if directory::is_ordinary(facts, plain) {
                VisitPlan::Read(
                    contents::mode_to_set(facts.mode, platform::masked(0o777, self.mask())),
                )
            } else {
                VisitPlan::Finished(Ok(false))
            },
        }
    }

    /// The directories that the walk is in after an ordinary one was opened.
    pub open spec fn deeper(
        &self,
        found: Option<(Result<DirectoryFacts, String>, bool)>,
    ) -> Seq<OpenDirectory> {
        match found {
            Some((Ok(facts), plain)) => if directory::is_ordinary(facts, plain) {
                self.open().push(OpenDirectory { relative: self.pending(), facts, plain })
            } else {
                self.open()
            },
            _ => self.open(),
        }
    }

    /// The pending directory was opened, with what was seen of it and whether
    /// its attributes are ordinary, or could not be opened.
    pub fn opened(&mut self, found: Option<(Result<DirectoryFacts, String>, bool)>) -> (next:
        VisitStep)
        requires
            old(self).wf(),
        ensures
            next@ == old(self).after_opening(found),
            final(self).wf(),
            final(self).walk() == old(self).walk(),
            final(self).mask() == old(self).mask(),
            final(self).executables() == old(self).executables(),
            final(self).pending() == old(self).pending(),
            final(self).open() == old(self).deeper(found),
    {
        let (facts, plain) = match found {
            None => {
                return VisitStep::Finished(Ok(false));
            },
            Some((Err(text), _)) => {
                return VisitStep::Finished(Err(Error::Io(text)));
            },
            Some((Ok(facts), plain)) => (facts, plain),
        };
        if !contents::may_stay(facts, plain) {
            return VisitStep::Finished(Ok(false));
        }
        let ghost before = frames(self.open@);
        let relative = bytes::copy(self.pending.as_slice());
        let ghost one = OpenDirectory { relative: relative@, facts, plain };
        self.open.push(Frame { relative, facts, plain });
        assert(frames(self.open@) =~= before.push(one));
        VisitStep::Read {
            mode: contents::mode_fix(facts.mode, platform::directory_mode(self.mask)),
        }
    }

    /// Where an item of the directory that was opened last lies.
    pub open spec fn child(&self, name: Seq<u8>) -> Seq<u8> {
        paths::joined(self.open().last().relative, name)
    }

    /// What follows the reading of an item: one that is not expected ends the
    /// walk, and after the last the directory is left.
    pub open spec fn after_reading(
        &self,
        item: Option<Result<(Vec<u8>, Kind), String>>,
        cancelled: usize,
    ) -> VisitPlan {
        match item {
            None => VisitPlan::Leave,
            Some(Err(text)) => VisitPlan::Finished(Err(Failure::Io(text@))),
            Some(Ok((name, kind))) => {
                let child = self.child(name@);
                match self.walk().course(paths::components(child), kind) {
                    Item::Descend => entering(self.walk(), cancelled, child),
                    Item::Examine(_) => VisitPlan::Examine(child),
                    Item::Reject => VisitPlan::Finished(Ok(false)),
                }
            },
        }
    }

    /// The next item of the directory that was opened last was read, or there
    /// was none left.
    pub fn read(&mut self, item: Option<Result<(Vec<u8>, Kind), String>>, cancelled: usize) -> (next:
        VisitStep)
        requires
            old(self).wf(),
        ensures
            old(self).open().len() == 0 ==> next@ == VisitPlan::Finished(Ok(false)) && *final(self)
                == *old(self),
            old(self).open().len() > 0 ==> {
                &&& next@ == old(self).after_reading(item, cancelled)
                &&& final(self).same_place(old(self))
                &&& match item {
                    Some(Ok((name, kind))) => {
                        &&& final(self).pending() == old(self).child(name@)
                        &&& final(self).walk().came_upon(
                            &old(self).walk(),
                            paths::components(old(self).child(name@)),
                            kind,
                        )
                    },
                    _ => final(self).pending() == old(self).pending() && final(self).walk() == old(
                        self,
                    ).walk(),
                }
            },
    {
        if self.open.len() == 0 {
            return VisitStep::Finished(Ok(false));
        }
        let (name, kind) = match item {
            None => {
                return VisitStep::Leave;
            },
            Some(Err(text)) => {
                return VisitStep::Finished(Err(Error::Io(text)));
            },
            Some(Ok(item)) => item,
        };
        let top = self.open.len() - 1;
        assert(frames(self.open@).last().relative == self.open@[top as int].relative@);
        let child = paths::join(self.open[top].relative.as_slice(), name.as_slice());
        self.pending = bytes::copy(child.as_slice());
        match self.walk.item(child.as_slice(), kind) {
            Item::Descend => enter(&self.walk, cancelled, child.as_slice()),
            Item::Examine(_) => VisitStep::Examine { child },
            Item::Reject => VisitStep::Finished(Ok(false)),
        }
    }

    /// The permissions of the file that is pending.
    pub open spec fn file_permissions(&self) -> u32 {
        let key = paths::components(self.pending());
        platform::masked(
            if self.executables()[self.walk().expected().files[key] as int] {
                0o777
            } else {
                0o666
            },
            self.mask(),
        )
    }

    /// What follows the examination of the pending file: it is kept where it is
    /// the one expected, and ends the walk where it is not.
    pub open spec fn after_examining(&self, seen: Option<FileSeen>) -> VisitPlan {
        match seen {
            None => VisitPlan::Finished(Ok(false)),
            Some(seen) => match seen.initial {
                Err(text) => VisitPlan::Finished(Err(Failure::Io(text@))),
                Ok((initial, mode)) => match self.walk().verdict(
                    paths::components(self.pending()),
                    initial,
                    seen.ordinary,
                    seen.content,
                    seen.after,
                ) {
                    Ok(true) => VisitPlan::Keep(
                        contents::mode_to_set(mode, self.file_permissions()),
                    ),
                    other => VisitPlan::Finished(other),
                },
            },
        }
    }

    /// The pending file was examined, or could not be opened.
    pub fn examined(&mut self, seen: Option<FileSeen>) -> (next: VisitStep)
        requires
            old(self).wf(),
        ensures
            next@ == old(self).after_examining(seen),
            final(self).same_place(old(self)),
            final(self).pending() == old(self).pending(),
            match seen {
                Some(seen) => match seen.initial {
                    Ok((initial, mode)) => {
                        let key = paths::components(old(self).pending());
                        final(self).walk().looked_at(
                            &old(self).walk(),
                            key,
                            initial,
                            seen.content,
                            old(self).walk().verdict(
                                key,
                                initial,
                                seen.ordinary,
                                seen.content,
                                seen.after,
                            ),
                        )
                    },
                    Err(_) => final(self).walk() == old(self).walk(),
                },
                None => final(self).walk() == old(self).walk(),
            },
    {
        let seen = match seen {
            None => {
                return VisitStep::Finished(Ok(false));
            },
            Some(seen) => seen,
        };
        let (initial, mode) = match seen.initial {
            Err(text) => {
                return VisitStep::Finished(Err(Error::Io(text)));
            },
            Ok(initial) => initial,
        };
        let verdict = self.walk.examine(
            self.pending.as_slice(),
            initial,
            seen.ordinary,
            seen.content,
            seen.after,
        );
        match verdict {
            Ok(true) => {
                let position = self.walk.position(self.pending.as_slice());
                let executable = match position {
                    Some(position) => self.executables[position],
                    None => false,
                };
                VisitStep::Keep {
                    mode: contents::mode_fix(mode, platform::file_mode(executable, self.mask)),
                }
            },
            other => VisitStep::Finished(other),
        }
    }

    /// The file that was examined got its permissions and times, and was
    /// inspected again.
    pub fn kept(&mut self, identity: Result<Identity, String>) -> (next: VisitStep)
        requires
            old(self).wf(),
        ensures
            next@ == (match identity {
                Err(text) => VisitPlan::Finished(Err(Failure::Io(text@))),
                Ok(_) => if old(self).walk().examined() is Some {
                    VisitPlan::Read(None)
                } else {
                    VisitPlan::Finished(Ok(false))
                },
            }),
            final(self).same_place(old(self)),
            final(self).pending() == old(self).pending(),
            if next is Read {
                final(self).walk().kept_file(&old(self).walk(), identity->Ok_0)
            } else {
                final(self).walk() == old(self).walk()
            },
    {
        match identity {
            Err(text) => VisitStep::Finished(Err(Error::Io(text))),
            Ok(identity) => if self.walk.keep_file(identity) {
                VisitStep::Read { mode: None }
            } else {
                VisitStep::Finished(Ok(false))
            },
        }
    }

    /// What follows the leaving of the directory that was opened last: the walk
    /// goes on in the one above, and ends well where there is none.
    pub open spec fn after_leaving(&self, place: Result<Place, String>) -> VisitPlan {
        let last = self.open().last();
        match place {
            Err(text) => VisitPlan::Finished(Err(Failure::Io(text@))),
            Ok(_) => if !self.walk().may_keep(last.relative, last.facts, last.plain) {
                VisitPlan::Finished(Ok(false))
            } else if self.open().len() == 1 {
                VisitPlan::Finished(Ok(true))
            } else {
                VisitPlan::Read(None)
            },
        }
    }

    /// The directory that was opened last got its times and was inspected again.
    pub fn left(&mut self, place: Result<Place, String>) -> (next: VisitStep)
        requires
            old(self).wf(),
        ensures
            old(self).open().len() == 0 ==> next@ == VisitPlan::Finished(Ok(false)) && *final(self)
                == *old(self),
            old(self).open().len() > 0 ==> {
                let last = old(self).open().last();
                let kept = place is Ok && old(self).walk().may_keep(
                    last.relative,
                    last.facts,
                    last.plain,
                );
                &&& next@ == old(self).after_leaving(place)
                &&& final(self).wf()
                &&& final(self).mask() == old(self).mask()
                &&& final(self).executables() == old(self).executables()
                &&& final(self).pending() == old(self).pending()
                &&& kept ==> final(self).open() == old(self).open().drop_last()
                    && final(self).walk().kept_directory(
                    &old(self).walk(),
                    last.relative,
                    place->Ok_0,
                )
                &&& !kept ==> final(self).open() == old(self).open() && final(self).walk() == old(
                    self,
                ).walk()
            },
    {
        if self.open.len() == 0 {
            return VisitStep::Finished(Ok(false));
        }
        let place = match place {
            Err(text) => {
                return VisitStep::Finished(Err(Error::Io(text)));
            },
            Ok(place) => place,
        };
        let ghost before = frames(self.open@);
        let top = self.open.len() - 1;
        assert(before.last() == (OpenDirectory {
            relative: self.open@[top as int].relative@,
            facts: self.open@[top as int].facts,
            plain: self.open@[top as int].plain,
        }));
        let kept = self.walk.keep_directory(
            self.open[top].relative.as_slice(),
            self.open[top].facts,
            self.open[top].plain,
            place,
        );
        if !kept {
            return VisitStep::Finished(Ok(false));
        }
        let _ = self.open.pop();
        assert(frames(self.open@) =~= before.drop_last());
        if self.open.len() == 0 {
            VisitStep::Finished(Ok(true))
        } else {
            VisitStep::Read { mode: None }
        }
    }

    /// What was kept, where the walk came back out of every directory, kept
    /// everything expected and came upon nothing else.
    pub fn finish(self) -> (result: Option<ClonedDirectory>)
        requires
            self.wf(),
        ensures
            result is Some <==> self.open().len() == 0 && self.walk().complete(),
            result matches Some(found) ==> found == self.walk().found(),
    {
        if self.open.len() == 0 {
            self.walk.finish()
        } else {
            None
        }
    }

    /// A walk ends well only when it leaves the root of the clone.
    pub proof fn only_leaving_the_root_ends_well(
        &self,
        found: Option<(Result<DirectoryFacts, String>, bool)>,
        item: Option<Result<(Vec<u8>, Kind), String>>,
        cancelled: usize,
        seen: Option<FileSeen>,
        place: Result<Place, String>,
    )
        ensures
            self.after_opening(found) != VisitPlan::Finished(Ok(true)),
            self.after_reading(item, cancelled) != VisitPlan::Finished(Ok(true)),
            self.after_examining(seen) != VisitPlan::Finished(Ok(true)),
            self.after_leaving(place) == VisitPlan::Finished(Ok(true)) ==> self.open().len() == 1,
    {
    }
}

/// A directory is entered where the tree has it and the work was not interrupted.
pub proof fn directories_of_the_tree_are_entered(walk: Walk, cancelled: usize, relative: Seq<u8>)
    ensures
        cancelled != 0 ==> entering(walk, cancelled, relative) == VisitPlan::Finished(
            Err(Failure::Message("worktree creation interrupted"@)),
        ),
        cancelled == 0 && walk.expected().directories.contains(paths::components(relative))
            ==> entering(walk, cancelled, relative) == VisitPlan::Open(relative),
        cancelled == 0 && !walk.expected().directories.contains(paths::components(relative))
            ==> entering(walk, cancelled, relative) == VisitPlan::Finished(Ok(false)),
{
}

impl Visit {
    /// An ordinary directory is read, with the mode to set where it has not all
    /// permissions that the mask leaves; anything else ends the walk.
    pub proof fn ordinary_directories_are_read(&self, facts: DirectoryFacts, plain: bool)
        ensures
            ({
                let wanted = platform::masked(0o777, self.mask());
                let next = self.after_opening(Some((Ok(facts), plain)));
                let deep = self.deeper(Some((Ok(facts), plain)));
                if facts.directory && facts.flags == 0 && plain {
                    &&& facts.mode % 4096 == wanted ==> next == VisitPlan::Read(None)
                    &&& facts.mode % 4096 != wanted ==> next == VisitPlan::Read(Some(wanted))
                    &&& deep == self.open().push(
                        OpenDirectory { relative: self.pending(), facts, plain },
                    )
                } else {
                    &&& next == VisitPlan::Finished(Ok(false))
                    &&& deep == self.open()
                }
            }),
            self.after_opening(None) == VisitPlan::Finished(Ok(false)),
    {
        contents::modes_are_set_where_they_differ(
            facts.mode,
            platform::masked(0o777, self.mask()),
        );
    }

    /// A directory that was read to its end is left. What was read in it is
    /// entered, examined or not of the tree, by its path below the directory.
    pub proof fn items_lie_below_their_directory(
        &self,
        name: Vec<u8>,
        kind: Kind,
        cancelled: usize,
    )
        ensures
            self.after_reading(None, cancelled) == VisitPlan::Leave,
            ({
                let child = paths::joined(self.open().last().relative, name@);
                let key = paths::components(child);
                let next = self.after_reading(Some(Ok((name, kind))), cancelled);
                &&& kind is Directory ==> next == entering(self.walk(), cancelled, child)
                &&& kind is File && self.walk().expected().files.contains_key(key) ==> next
                    == VisitPlan::Examine(child)
                &&& kind is File && !self.walk().expected().files.contains_key(key) ==> next
                    == VisitPlan::Finished(Ok(false))
                &&& kind is Other ==> next == VisitPlan::Finished(Ok(false))
            }),
    {
    }

    /// A file that is accepted is kept, with the mode to set where it has not the
    /// permissions that the mask leaves of its own: all for an executable file,
    /// and those to read and write for another.
    pub proof fn accepted_files_are_kept(&self, seen: FileSeen)
        ensures
            ({
                let key = paths::components(self.pending());
                let all: u32 = if self.executables()[self.walk().expected().files[key] as int] {
                    0o777
                } else {
                    0o666
                };
                let wanted = platform::masked(all, self.mask());
                let next = self.after_examining(Some(seen));
                &&& seen.initial matches Err(text) ==> next == VisitPlan::Finished(
                    Err(Failure::Io(seen.initial->Err_0@)),
                )
                &&& seen.initial matches Ok((facts, mode)) ==> {
                    let verdict = self.walk().verdict(
                        key,
                        facts,
                        seen.ordinary,
                        seen.content,
                        seen.after,
                    );
                    &&& verdict != Ok::<bool, Failure>(true) ==> next == VisitPlan::Finished(
                        verdict,
                    )
                    &&& verdict == Ok::<bool, Failure>(true) && mode % 4096 == wanted ==> next
                        == VisitPlan::Keep(None)
                    &&& verdict == Ok::<bool, Failure>(true) && mode % 4096 != wanted ==> next
                        == VisitPlan::Keep(Some(wanted))
                }
            }),
            self.after_examining(None) == VisitPlan::Finished(Ok(false)),
    {
        if let Ok((facts, mode)) = seen.initial {
            contents::modes_are_set_where_they_differ(mode, self.file_permissions());
        }
    }

    /// A directory that may be kept leads back to the one that holds it, and the
    /// outermost to the end of the walk.
    pub proof fn leaving_leads_back(&self, place: Place, text: String)
        ensures
            ({
                let last = self.open().last();
                let kept = self.walk().may_keep(last.relative, last.facts, last.plain);
                let next = self.after_leaving(Ok(place));
                &&& !kept ==> next == VisitPlan::Finished(Ok(false))
                &&& kept && self.open().len() == 1 ==> next == VisitPlan::Finished(Ok(true))
                &&& kept && self.open().len() > 1 ==> next == VisitPlan::Read(None)
            }),
            self.after_leaving(Err(text)) == VisitPlan::Finished(Err(Failure::Io(text@))),
    {
    }
}

} // verus!
