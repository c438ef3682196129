//! What a creation made itself, and what it may therefore remove again.
use crate::bytes;
use crate::clones;
use crate::directory::Named;
use crate::error;
use crate::error::{Error, Failure};
use crate::pathmap::PathMap;
use crate::paths;
use crate::platform::{Identity, Place};
use crate::text;
use vstd::prelude::*;
use vstd::string::*;

verus! {

/// A worktree in the making: the files and directories that were made there.
pub struct Creation {
    owned: PathMap<Identity>,
    directories: PathMap<Place>,
}

/// An interruption ends a creation.
pub fn check_cancelled(signal: usize) -> (result: Result<(), Error>)
    ensures
        result is Ok <==> signal == 0,
        result matches Err(error) ==> error@ == Failure::Message("worktree creation interrupted"@),
{
    if signal != 0 {
        Err(error::message("worktree creation interrupted"))
    } else {
        Ok(())
    }
}

/// A file that was cloned: its path, what it is, and the commit of its donor.
#[derive(Debug)]
pub struct Seeded {
    pub path: Vec<u8>,
    pub identity: Identity,
    pub source: String,
}

/// What a cloned file says.
pub struct Seed {
    pub path: Seq<u8>,
    pub identity: Identity,
    pub source: Seq<char>,
}

impl View for Seeded {
    type V = Seed;

    open spec fn view(&self) -> Seed {
        Seed { path: self.path@, identity: self.identity, source: self.source@ }
    }
}

/// What a list of cloned files says.
pub open spec fn seeds(list: Seq<Seeded>) -> Seq<Seed> {
    Seq::new(list.len(), |i: int| list[i]@)
}

/// The files that are owned once these were cloned too.
pub open spec fn owned_after(
    owned: Map<Seq<Seq<u8>>, Identity>,
    list: Seq<Seed>,
) -> Map<Seq<Seq<u8>>, Identity>
    decreases list.len(),
{
    if list.len() == 0 {
        owned
    } else {
        owned_after(owned, list.drop_last()).insert(
            paths::components(list.last().path),
            list.last().identity,
        )
    }
}

/// What was found in the worktree.
#[derive(Debug)]
pub enum Found {
    Directory { path: Vec<u8>, named: Named },
    File { path: Vec<u8>, identity: Identity },
}

/// What one worker did: the files it cloned, and the error that stopped it.
#[derive(Debug)]
pub struct Share {
    pub completed: Vec<Seeded>,
    pub error: Option<Error>,
}

/// What all workers cloned.
pub open spec fn all_seeds(shares: Seq<Share>) -> Seq<Seed>
    decreases shares.len(),
{
    if shares.len() == 0 {
        Seq::empty()
    } else {
        all_seeds(shares.drop_last()) + seeds(shares.last().completed@)
    }
}

/// The error of the first worker that has one.
pub open spec fn first_error(shares: Seq<Share>) -> Option<Failure>
    decreases shares.len(),
{
    if shares.len() == 0 {
        None
    } else {
        match first_error(shares.drop_last()) {
            Some(failure) => Some(failure),
            None => match shares.last().error {
                Some(error) => Some(error@),
                None => None,
            },
        }
    }
}

/// The commits that files were cloned from.
pub open spec fn seed_sources(list: Seq<Seed>) -> Set<Seq<char>>
    decreases list.len(),
{
    if list.len() == 0 {
        Set::empty()
    } else {
        seed_sources(list.drop_last()).insert(list.last().source)
    }
}

pub open spec fn seed_paths(list: Seq<Seed>) -> Seq<Seq<u8>> {
    Seq::new(list.len(), |i: int| list[i].path)
}

/// What seeding came to: the paths that were cloned, and the commits they came
/// from, each once.
#[derive(Debug)]
pub struct Seeding {
    pub paths: Vec<Vec<u8>>,
    pub sources: Vec<String>,
}

impl Creation {
    /// The files that were made, by path.
    pub closed spec fn owned(&self) -> Map<Seq<Seq<u8>>, Identity> {
        self.owned@
    }

    /// The directories that were made, by path.
    pub closed spec fn directories(&self) -> Map<Seq<Seq<u8>>, Place> {
        self.directories@
    }

    #[verifier::type_invariant]
    closed spec fn inv(&self) -> bool {
        self.owned.wf() && self.directories.wf()
    }

    /// A worktree that was just registered at `root`.
    pub fn new(root: Place) -> (creation: Self)
        ensures
            creation.owned() == Map::<Seq<Seq<u8>>, Identity>::empty(),
            creation.directories() == Map::<Seq<Seq<u8>>, Place>::empty().insert(
                Seq::empty(),
                root,
            ),
    {
        let mut directories: PathMap<Place> = PathMap::new();
        let top: Vec<Vec<u8>> = Vec::new();
        assert(bytes::views(top@) =~= Seq::<Seq<u8>>::empty());
        directories.put(top, root);
        Creation { owned: PathMap::new(), directories }
    }

    /// A file was made.
    pub fn remember(&mut self, path: &[u8], identity: Identity)
        ensures
            final(self).owned() == old(self).owned().insert(paths::components(path@), identity),
            final(self).directories() == old(self).directories(),
    {
        proof {
            use_type_invariant(&*self);
        }
        let mut owned: PathMap<Identity> = PathMap::new();
        std::mem::swap(&mut owned, &mut self.owned);
        owned.insert(path, identity);
        self.owned = owned;
    }

    /// Whether a file is the one that was made there.
    pub fn is_owned(&self, path: &[u8], identity: Identity) -> (yes: bool)
        ensures
            yes == (self.owned().contains_key(paths::components(path@))
                && self.owned()[paths::components(path@)] == identity),
    {
        proof {
            use_type_invariant(self);
        }
        match self.owned.get(path) {
            Some(known) => known == identity,
            None => false,
        }
    }

    /// Whether a directory is the one that was made there.
    pub fn is_own_directory(&self, path: &[u8], named: Named) -> (yes: bool)
        ensures
            yes == (named.directory && self.directories().contains_key(paths::components(path@))
                && self.directories()[paths::components(path@)] == named.place),
    {
        proof {
            use_type_invariant(self);
        }
        match self.directories.get(path) {
            Some(known) => named.directory && known == named.place,
            None => false,
        }
    }

    /// The worktree and its link to the repository are those that were registered.
    pub open spec fn authority(&self, root: Place, link: Identity) -> bool {
        &&& self.directories().contains_key(Seq::empty())
        &&& self.directories()[Seq::empty()] == root
        &&& self.owned().contains_key(paths::components(".git".spec_bytes()))
        &&& self.owned()[paths::components(".git".spec_bytes())] == link
    }

    /// Whether the worktree and its link to the repository are still those that
    /// were registered. `root` and `link` are what was found of them.
    pub fn verify_authority(&self, root: Result<Place, String>, link: Result<Identity, String>) -> (result:
        Result<(), Error>)
        ensures
            result is Ok <==> root is Ok && link is Ok && self.authority(root->Ok_0, link->Ok_0),
            result matches Err(error) ==> error@ == (match root {
                Err(text) => Failure::Io(text@),
                Ok(place) => if !(self.directories().contains_key(Seq::empty())
                    && self.directories()[Seq::empty()] == place) {
                    Failure::Message("worktree registration changed during creation"@)
                } else {
                    match link {
                        Err(text) => Failure::Io(text@),
                        Ok(_) => Failure::Message(
                            "worktree registration changed during creation"@,
                        ),
                    }
                },
            }),
    {
        proof {
            use_type_invariant(self);
        }
        let place = match root {
            Err(text) => {
                return Err(Error::Io(text));
            },
            Ok(place) => place,
        };
        let top: Vec<Vec<u8>> = Vec::new();
        assert(bytes::views(top@) =~= Seq::<Seq<u8>>::empty());
        let registered = match self.directories.find(&top) {
            Some(known) => known == place,
            None => false,
        };
        if !registered {
            return Err(error::message("worktree registration changed during creation"));
        }
        let identity = match link {
            Err(text) => {
                return Err(Error::Io(text));
            },
            Ok(identity) => identity,
        };
        if self.is_owned(".git".as_bytes(), identity) {
            Ok(())
        } else {
            Err(error::message("worktree registration changed during creation"))
        }
    }

    /// The directories above `relative`, from the top, and whether each was
    /// made already.
    pub fn parents(&self, relative: &[u8]) -> (steps: Vec<(Vec<u8>, bool)>)
        requires
            !paths::is_absolute(relative@),
        ensures
            ({
                let parts = paths::components(relative@);
                let count = if parts.len() == 0 {
                    0
                } else {
                    parts.len() - 1
                };
                &&& steps@.len() == count
                &&& forall|i: int|
                    0 <= i < count ==> (#[trigger] steps@[i]).0@ == paths::relative_text(
                        parts.take(i + 1),
                    ) && steps@[i].1 == self.directories().contains_key(parts.take(i + 1))
            }),
    {
        proof {
            use_type_invariant(self);
            paths::components_of_relative(relative@);
        }
        let parts = paths::split_path(relative);
        let ghost all = paths::components(relative@);
        let mut steps: Vec<(Vec<u8>, bool)> = Vec::new();
        if parts.len() == 0 {
            return steps;
        }
        for i in 1..parts.len()
            invariant
                all == bytes::views(parts@),
                paths::relative_components(all),
                self.directories.wf(),
                steps@.len() == i - 1,
                forall|j: int|
                    0 <= j < i - 1 ==> (#[trigger] steps@[j]).0@ == paths::relative_text(
                        all.take(j + 1),
                    ) && steps@[j].1 == self.directories@.contains_key(all.take(j + 1)),
        {
            let path = paths::prefix_text(&parts, i);
            let known = self.directories.contains(path.as_slice());
            steps.push((path, known));
        }
        steps
    }

    /// Takes in a directory above a path: one made before, which has to be the
    /// same still, or one just made. `found` is what stands there.
    pub fn settle_parent(&mut self, parent: &[u8], found: Result<Named, String>) -> (result: Result<
        (),
        Error,
    >)
        ensures
            final(self).owned() == old(self).owned(),
            ({
                let key = paths::components(parent@);
                let known = old(self).directories().contains_key(key);
                &&& result is Ok <==> (found matches Ok(named) && (known ==> named.directory
                    && old(self).directories()[key] == named.place))
                &&& result is Ok ==> final(self).directories() == (if known {
                    old(self).directories()
                } else {
                    old(self).directories().insert(key, found->Ok_0.place)
                })
                &&& result matches Err(error) ==> final(self).directories() == old(
                    self,
                ).directories() && error@ == (match found {
                    Err(text) => Failure::Io(text@),
                    Ok(_) => Failure::UnsafePath(parent@),
                })
            }),
    {
        proof {
            use_type_invariant(&*self);
        }
        let named = match found {
            Err(text) => {
                return Err(Error::Io(text));
            },
            Ok(named) => named,
        };
        match self.directories.get(parent) {
            Some(place) => {
                if named.directory && place == named.place {
                    Ok(())
                } else {
                    Err(Error::UnsafePath(bytes::copy(parent)))
                }
            },
            None => {
                let mut directories: PathMap<Place> = PathMap::new();
                std::mem::swap(&mut directories, &mut self.directories);
                directories.insert(parent, named.place);
                self.directories = directories;
                Ok(())
            },
        }
    }

    /// Something that was found is what was made there.
    pub open spec fn made(&self, found: Found) -> bool {
        match found {
            Found::Directory { path, named } => named.directory && self.directories().contains_key(
                paths::components(path@),
            ) && self.directories()[paths::components(path@)] == named.place,
            Found::File { path, identity } => self.owned().contains_key(paths::components(path@))
                && self.owned()[paths::components(path@)] == identity,
        }
    }

    /// Whether all that was found in the worktree was made by this creation and
    /// did not change.
    pub fn only_owned(&self, found: &Vec<Found>) -> (yes: bool)
        ensures
            yes == forall|i: int| 0 <= i < found@.len() ==> self.made(#[trigger] found@[i]),
    {
        for i in 0..found.len()
            invariant
                forall|j: int| 0 <= j < i ==> self.made(#[trigger] found@[j]),
        {
            let one = match &found[i] {
                Found::Directory { path, named } => self.is_own_directory(path.as_slice(), *named),
                Found::File { path, identity } => self.is_owned(path.as_slice(), *identity),
            };
            if !one {
                assert(!self.made(found@[i as int]));
                return false;
            }
        }
        true
    }

    /// Takes in what all workers cloned, whether or not one of them failed, and
    /// says what it came to: an interruption or the first error counts first.
    pub fn collect(&mut self, shares: Vec<Share>, signal: usize) -> (result: Result<Seeding, Error>)
        ensures
            final(self).directories() == old(self).directories(),
            final(self).owned() == owned_after(old(self).owned(), all_seeds(shares@)),
            result is Ok <==> signal == 0 && first_error(shares@) is None,
            result matches Ok(seeding) ==> {
                let all = all_seeds(shares@);
                &&& bytes::views(seeding.paths@) == seed_paths(all)
                &&& text::texts(seeding.sources@).no_duplicates()
                &&& text::texts(seeding.sources@).to_set() == seed_sources(all)
            },
            result matches Err(error) ==> error@ == (if signal != 0 {
                Failure::Message("worktree creation interrupted"@)
            } else {
                first_error(shares@)->0
            }),
    {
        proof {
            use_type_invariant(&*self);
        }
        let ghost given = shares@;
        let ghost start = self.owned@;
        let mut owned: PathMap<Identity> = PathMap::new();
        std::mem::swap(&mut owned, &mut self.owned);
        let mut paths: Vec<Vec<u8>> = Vec::new();
        let mut sources: Vec<String> = Vec::new();
        let mut failed: Option<usize> = None;
        assert(given.take(0) =~= Seq::<Share>::empty());
        assert(bytes::views(paths@) =~= seed_paths(all_seeds(given.take(0))));
        assert(text::texts(sources@) =~= Seq::<Seq<char>>::empty());
        assert(text::texts(sources@).to_set() =~= Set::<Seq<char>>::empty());
        for i in 0..shares.len()
            invariant
                given == shares@,
                owned.wf(),
                owned@ == owned_after(start, all_seeds(given.take(i as int))),
                bytes::views(paths@) == seed_paths(all_seeds(given.take(i as int))),
                text::texts(sources@).no_duplicates(),
                text::texts(sources@).to_set() == seed_sources(all_seeds(given.take(i as int))),
                failed is None <==> first_error(given.take(i as int)) is None,
                failed matches Some(k) ==> k < i && given[k as int].error is Some && Some(
                    given[k as int].error->0@,
                ) == first_error(given.take(i as int)),
        {
            assert(given.take(i + 1).drop_last() =~= given.take(i as int));
            assert(given.take(i + 1).last() == given[i as int]);
            let share = &shares[i];
            let ghost before = all_seeds(given.take(i as int));
            let ghost more = seeds(share.completed@);
            assert(before + more.take(0) =~= before);
            for j in 0..share.completed.len()
                invariant
                    more == seeds(share.completed@),
                    owned.wf(),
                    owned@ == owned_after(start, before + more.take(j as int)),
                    bytes::views(paths@) == seed_paths(before + more.take(j as int)),
                    text::texts(sources@).no_duplicates(),
                    text::texts(sources@).to_set() == seed_sources(before + more.take(j as int)),
            {
                let one = &share.completed[j];
                let ghost now = before + more.take(j + 1);
                assert(now.drop_last() =~= before + more.take(j as int));
                assert(now.last() == one@);
                owned.insert(one.path.as_slice(), one.identity);
                let ghost held = bytes::views(paths@);
                let path = bytes::copy(one.path.as_slice());
                let ghost p = path@;
                paths.push(path);
                assert(bytes::views(paths@) =~= held.push(p));
                assert(seed_paths(now) =~= held.push(p));
                clones::add_source(&mut sources, one.source.as_str());
            }
            assert(more.take(more.len() as int) =~= more);
            if failed.is_none() && share.error.is_some() {
                failed = Some(i);
            }
        }
        assert(given.take(given.len() as int) =~= given);
        self.owned = owned;
        check_cancelled(signal)?;
        match failed {
            None => Ok(Seeding { paths, sources }),
            Some(k) => {
                let mut shares = shares;
                let mut error: Option<Error> = None;
                std::mem::swap(&mut error, &mut shares[k].error);
                match error {
                    Some(error) => Err(error),
                    None => Ok(Seeding { paths, sources }),
                }
            },
        }
    }
}

/// Every clone that a worker completed is owned afterwards, also where a worker
/// failed, unless a later clone took its path.
pub proof fn completed_clones_are_owned(
    owned: Map<Seq<Seq<u8>>, Identity>,
    list: Seq<Seed>,
    i: int,
)
    requires
        0 <= i < list.len(),
        forall|j: int|
            i < j < list.len() ==> paths::components((#[trigger] list[j]).path)
                != paths::components(list[i].path),
    ensures
        owned_after(owned, list).contains_key(paths::components(list[i].path)),
        owned_after(owned, list)[paths::components(list[i].path)] == list[i].identity,
    decreases list.len(),
{
    if i < list.len() - 1 {
        let init = list.drop_last();
        assert forall|j: int| i < j < init.len() implies paths::components(
            (#[trigger] init[j]).path,
        ) != paths::components(init[i].path) by {
            assert(init[j] == list[j]);
        }
        completed_clones_are_owned(owned, init, i);
        assert(list[list.len() - 1].path == list.last().path);
    }
}

/// What is to be done about a worktree that is not complete.
#[derive(Clone, Copy, Debug, PartialEq, Eq, Structural)]
pub enum Cleanup {
    /// Nothing.
    Nothing,
    /// Find out whether everything in the worktree was made by this creation.
    Inspect,
    /// Let Git remove the worktree.
    Remove,
    /// Make the empty directory again that was there before.
    Restore,
    /// Keep the worktree and say how it can be recovered.
    Retain,
}

/// The first step of a cleanup. A failed filter can have made anything: what
/// was there when Git materialized files is kept.
pub open spec fn cleanup_start(complete: bool, materializing: bool) -> Cleanup {
    if complete {
        Cleanup::Nothing
    } else if materializing {
        Cleanup::Retain
    } else {
        Cleanup::Inspect
    }
}

/// What follows the inspection: Git removes only what this creation made.
pub open spec fn after_inspection(only_owned: Option<bool>) -> Cleanup {
    if only_owned == Some(true) {
        Cleanup::Remove
    } else {
        Cleanup::Retain
    }
}

/// What follows the removal.
pub open spec fn after_removal(removed: bool, had_directory: bool) -> Cleanup {
    if !removed {
        Cleanup::Retain
    } else if had_directory {
        Cleanup::Restore
    } else {
        Cleanup::Nothing
    }
}

/// The steps of a cleanup, in order.
pub open spec fn cleanup_steps(
    complete: bool,
    materializing: bool,
    only_owned: Option<bool>,
    removed: bool,
    had_directory: bool,
) -> Seq<Cleanup> {
    let first = cleanup_start(complete, materializing);
    if first != Cleanup::Inspect {
        seq![first]
    } else {
        let second = after_inspection(only_owned);
        if second != Cleanup::Remove {
            seq![first, second]
        } else {
            seq![first, second, after_removal(removed, had_directory)]
        }
    }
}

/// The first step of a cleanup.
pub fn cleanup(complete: bool, materializing: bool) -> (step: Cleanup)
    ensures
        step == cleanup_start(complete, materializing),
{
    if complete {
        Cleanup::Nothing
    } else if materializing {
        Cleanup::Retain
    } else {
        Cleanup::Inspect
    }
}

/// After the worktree was inspected; `None` where that failed.
pub fn cleanup_inspected(only_owned: Option<bool>) -> (step: Cleanup)
    ensures
        step == after_inspection(only_owned),
{
    match only_owned {
        Some(true) => Cleanup::Remove,
        _ => Cleanup::Retain,
    }
}

/// After Git was to remove the worktree.
pub fn cleanup_removed(removed: bool, had_directory: bool) -> (step: Cleanup)
    ensures
        step == after_removal(removed, had_directory),
{
    if !removed {
        Cleanup::Retain
    } else if had_directory {
        Cleanup::Restore
    } else {
        Cleanup::Nothing
    }
}

/// A worktree is removed only where it is not complete, Git wrote no files yet,
/// and everything found in it was made by this creation.
pub proof fn only_own_worktrees_are_removed(
    complete: bool,
    materializing: bool,
    only_owned: Option<bool>,
    removed: bool,
    had_directory: bool,
)
    ensures
        cleanup_steps(complete, materializing, only_owned, removed, had_directory).contains(
            Cleanup::Remove,
        ) <==> !complete && !materializing && only_owned == Some(true),
{
    let steps = cleanup_steps(complete, materializing, only_owned, removed, had_directory);
    if !complete && !materializing && only_owned == Some(true) {
        assert(steps[1] == Cleanup::Remove);
    }
}

/// Where an incomplete worktree was not removed, it is reported as retained.
pub proof fn kept_worktrees_are_reported(
    complete: bool,
    materializing: bool,
    only_owned: Option<bool>,
    removed: bool,
    had_directory: bool,
)
    ensures
        ({
            let steps = cleanup_steps(complete, materializing, only_owned, removed, had_directory);
            steps.last() == Cleanup::Retain <==> !complete && !(steps.contains(Cleanup::Remove)
                && removed)
        }),
{
    let steps = cleanup_steps(complete, materializing, only_owned, removed, had_directory);
    only_own_worktrees_are_removed(complete, materializing, only_owned, removed, had_directory);
}

/// After some clones were made, each path is owned with the identity of the last
/// clone there, and a path without a clone as before.
pub proof fn the_last_clone_of_a_path_is_owned(
    owned: Map<Seq<Seq<u8>>, Identity>,
    list: Seq<Seed>,
    key: Seq<Seq<u8>>,
    i: int,
)
    ensures
        ({
            let after = owned_after(owned, list);
            &&& (0 <= i < list.len() && paths::components(list[i].path) == key && forall|j: int|
                i < j < list.len() ==> paths::components((#[trigger] list[j]).path) != key)
                ==> after.contains_key(key) && after[key] == list[i].identity
            &&& (forall|j: int|
                0 <= j < list.len() ==> paths::components((#[trigger] list[j]).path) != key)
                ==> after.contains_key(key) == owned.contains_key(key) && (owned.contains_key(key)
                ==> after[key] == owned[key])
        }),
    decreases list.len(),
{
    if list.len() > 0 {
        let init = list.drop_last();
        let n = list.len() - 1;
        the_last_clone_of_a_path_is_owned(owned, init, key, i);
        assert(list[n] == list.last());
        assert(forall|j: int| 0 <= j < n ==> #[trigger] init[j] == list[j]);
    }
}

/// The clones of all shares are those of each share, one share behind the other.
pub proof fn clones_of_all_shares_are_kept(shares: Seq<Share>, share: Share, s: int, i: int)
    ensures
        all_seeds(Seq::empty()) == Seq::<Seed>::empty(),
        all_seeds(shares.push(share)) == all_seeds(shares) + Seq::new(
            share.completed@.len(),
            |k: int| share.completed@[k]@,
        ),
        0 <= s < shares.len() && 0 <= i < shares[s].completed@.len() ==> all_seeds(
            shares,
        ).contains(shares[s].completed@[i]@),
    decreases shares.len(),
{
    let more = shares.push(share);
    assert(more.drop_last() =~= shares);
    assert(seeds(share.completed@) =~= Seq::new(
        share.completed@.len(),
        |k: int| share.completed@[k]@,
    ));
    if 0 <= s < shares.len() && 0 <= i < shares[s].completed@.len() {
        let init = shares.drop_last();
        let before = all_seeds(init);
        let last = seeds(shares.last().completed@);
        if s < init.len() {
            clones_of_all_shares_are_kept(init, share, s, i);
            assert(init[s] == shares[s]);
            let k = choose|k: int|
                0 <= k < before.len() && before[k] == shares[s].completed@[i]@;
            assert(all_seeds(shares)[k] == before[k]);
        } else {
            assert(all_seeds(shares)[before.len() + i] == last[i]);
        }
    }
}

/// The error of all shares is that of the first share with one.
pub proof fn the_first_error_counts(shares: Seq<Share>, s: int)
    ensures
        (0 <= s < shares.len() && shares[s].error is Some && forall|t: int|
            0 <= t < s ==> (#[trigger] shares[t]).error is None) ==> first_error(shares) == Some(
            shares[s].error->0@,
        ),
        (forall|t: int| 0 <= t < shares.len() ==> (#[trigger] shares[t]).error is None)
            ==> first_error(shares) is None,
    decreases shares.len(),
{
    if shares.len() > 0 {
        let init = shares.drop_last();
        assert(forall|t: int| 0 <= t < init.len() ==> #[trigger] init[t] == shares[t]);
        assert(shares[shares.len() - 1] == shares.last());
        the_first_error_counts(init, s);
    }
}

/// The commits that were cloned from are those of the clones.
pub proof fn sources_are_those_of_the_clones(list: Seq<Seed>, source: Seq<char>)
    ensures
        seed_sources(list).contains(source) <==> exists|i: int|
            0 <= i < list.len() && (#[trigger] list[i]).source == source,
    decreases list.len(),
{
    if list.len() > 0 {
        let init = list.drop_last();
        sources_are_those_of_the_clones(init, source);
        assert(list[list.len() - 1] == list.last());
        assert(forall|i: int| 0 <= i < init.len() ==> #[trigger] init[i] == list[i]);
        if seed_sources(init).contains(source) {
            let i = choose|i: int|
                0 <= i < init.len() && (#[trigger] init[i]).source == source;
            assert(list[i].source == source);
        }
        if exists|i: int| 0 <= i < list.len() && (#[trigger] list[i]).source == source {
            let i = choose|i: int|
                0 <= i < list.len() && (#[trigger] list[i]).source == source;
            if i < init.len() {
                assert(init[i].source == source);
            }
        }
    }
}

/// A complete worktree is left alone, and one that Git may have written to is
/// kept. Any other is looked through and removed only where all of it is known
/// to be this creation's own; an empty directory that stood there is put back.
pub proof fn cleanup_removes_what_is_its_own(
    complete: bool,
    materializing: bool,
    only_owned: Option<bool>,
    removed: bool,
    had_directory: bool,
)
    ensures
        cleanup_steps(complete, materializing, only_owned, removed, had_directory) == (
        if complete {
            seq![Cleanup::Nothing]
        } else if materializing {
            seq![Cleanup::Retain]
        } else if only_owned != Some(true) {
            seq![Cleanup::Inspect, Cleanup::Retain]
        } else if !removed {
            seq![Cleanup::Inspect, Cleanup::Remove, Cleanup::Retain]
        } else if had_directory {
            seq![Cleanup::Inspect, Cleanup::Remove, Cleanup::Restore]
        } else {
            seq![Cleanup::Inspect, Cleanup::Remove, Cleanup::Nothing]
        }),
{
}

/// A file or directory is this creation's own where what stands at its path is
/// what was made there.
pub proof fn own_files_are_those_made(
    creation: Creation,
    path: Vec<u8>,
    identity: Identity,
    named: Named,
)
    ensures
        creation.made(Found::File { path, identity }) <==> creation.owned().contains_pair(
            paths::components(path@),
            identity,
        ),
        creation.made(Found::Directory { path, named }) <==> named.directory
            && creation.directories().contains_pair(paths::components(path@), named.place),
{
}

/// Clones are seen as they are.
pub proof fn clones_are_seen_as_they_are(list: Seq<Seeded>, i: int)
    requires
        0 <= i < list.len(),
    ensures
        seeds(list).len() == list.len(),
        seeds(list)[i].path == list[i].path@,
        seeds(list)[i].identity == list[i].identity,
        seeds(list)[i].source == list[i].source@,
        seed_paths(seeds(list))[i] == list[i].path@,
{
}

} // verus!
