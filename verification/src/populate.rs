//! Filling a registered worktree.
//!
//! A `Population` holds what is known of the worktree and the stage that is due.
//! Each method takes what its stage found out, and goes on to the next stage or
//! says why the creation fails.
use crate::add::Git;
use crate::attributes;
use crate::attributes::SafePaths;
use crate::bytes;
use crate::create;
use crate::create::{Facts, Remainder, Stage};
use crate::directory::Named;
use crate::donors;
use crate::donors::Inventory;
use crate::error::{Error, Failure};
use crate::fresh;
use crate::git;
use crate::git::TreeEntry;
use crate::ownership;
use crate::ownership::{Cleanup, Creation, Share};
use crate::pathmap;
use crate::paths;
use crate::platform::{Identity, Place};
use crate::process;
use crate::process::ProcessOutput;
use crate::seeding;
use crate::seeding::{SeedJob, SeedPlan};
use crate::text;
use crate::worktree;
use vstd::prelude::*;
use vstd::string::*;

verus! {

/// What a Git command comes to: its output, or why it failed.
pub open spec fn command(output: ProcessOutput, written: Option<Result<(), String>>) -> Result<
    Seq<u8>,
    Failure,
> {
    if !output.succeeded() {
        Err(process::process_failure(output))
    } else {
        match written {
            Some(Err(text)) => Err(Failure::Io(text@)),
            _ => Ok(output.stdout@),
        }
    }
}

/// What a switch of the configuration comes to.
pub open spec fn switch(output: ProcessOutput) -> Result<bool, Failure> {
    if output.succeeded() {
        Ok(output.stdout@ == "true\n".spec_bytes())
    } else if output.code == Some(1i32) {
        Ok(false)
    } else {
        Err(attributes::config_failure(output))
    }
}

/// What is known of a worktree that is being filled.
pub struct Filling {
    pub stage: Stage,
    pub facts: Facts,
    pub commit: Seq<char>,
    pub entries: Seq<git::Entry>,
    pub wanted: Seq<int>,
    pub omitted: Seq<int>,
    pub safe: Set<Seq<Seq<u8>>>,
    pub inventories: Seq<Inventory>,
    pub jobs: Seq<SeedPlan>,
    pub seeds: Seq<Seq<u8>>,
    pub sources: Set<Seq<char>>,
    pub absent: Seq<int>,
    pub missing: Seq<int>,
    pub gitlinks: Seq<int>,
    pub owned: Map<Seq<Seq<u8>>, Identity>,
    pub directories: Map<Seq<Seq<u8>>, Place>,
}

impl Filling {
    /// The same, with the next stage due.
    pub open spec fn proceed(self) -> Filling {
        Filling { stage: create::next_stage(self.stage, self.facts), ..self }
    }

    /// Whether the worktree and its link are those registered, or why not.
    pub open spec fn authority(
        self,
        root: Result<Place, String>,
        link: Result<Identity, String>,
    ) -> Result<(), Failure> {
        let changed = Failure::Message("worktree registration changed during creation"@);
        let key = paths::components(".git".spec_bytes());
        match root {
            Err(text) => Err(Failure::Io(text@)),
            Ok(place) => if !(self.directories.contains_key(Seq::empty())
                && self.directories[Seq::empty()] == place) {
                Err(changed)
            } else {
                match link {
                    Err(text) => Err(Failure::Io(text@)),
                    Ok(identity) => if self.owned.contains_key(key) && self.owned[key]
                        == identity {
                        Ok(())
                    } else {
                        Err(changed)
                    },
                }
            },
        }
    }

    /// The same with the entries that a sparse checkout takes in, where there
    /// is one.
    pub open spec fn with_index(self, matched: Option<Seq<u8>>) -> Filling {
        let test = seeding::included(matched, self.entries);
        let n = self.entries.len() as int;
        let wanted = worktree::positions(n, test);
        let omitted = worktree::positions(n, seeding::not(test));
        Filling {
            wanted,
            omitted,
            facts: Facts {
                wanted: wanted.len() > 0,
                omitted: omitted.len() > 0,
                ..self.facts
            },
            ..self
        }
    }

    /// The same with what is left after seeding.
    pub open spec fn with_remainder(self) -> Filling {
        let set = pathmap::listed(self.seeds);
        let missing = seeding::select(self.wanted, create::written_by_git(self.entries, set));
        Filling {
            absent: seeding::select(self.wanted, create::unseeded(self.entries, set)),
            missing,
            gitlinks: seeding::select(self.wanted, create::is_gitlink(self.entries)),
            facts: Facts { missing: missing.len() > 0, ..self.facts },
            ..self
        }
    }
}

/// A worktree that is being filled.
pub struct Population {
    stage: Stage,
    facts: Facts,
    commit: String,
    entries: Vec<TreeEntry>,
    wanted: Vec<usize>,
    omitted: Vec<usize>,
    safe: SafePaths,
    inventories: Vec<Inventory>,
    jobs: Vec<SeedJob>,
    seeds: Vec<Vec<u8>>,
    sources: Vec<String>,
    rest: Remainder,
    creation: Creation,
}

/// The entries of `list`, copied.
fn entries_at(entries: &Vec<TreeEntry>, list: &Vec<usize>) -> (result: Vec<TreeEntry>)
    requires
        seeding::within(list@, entries@.len() as int),
    ensures
        git::entries(result@) == picked(git::entries(entries@), donors::numbers(list@)),
{
    let ghost all = picked(git::entries(entries@), donors::numbers(list@));
    let mut result: Vec<TreeEntry> = Vec::new();
    for i in 0..list.len()
        invariant
            seeding::within(list@, entries@.len() as int),
            all == picked(git::entries(entries@), donors::numbers(list@)),
            git::entries(result@) == all.take(i as int),
    {
        let entry = &entries[list[i]];
        let one = TreeEntry {
            path: bytes::copy(entry.path.as_slice()),
            oid: entry.oid.as_str().to_owned(),
            executable: entry.executable,
            regular: entry.regular,
            gitlink: entry.gitlink,
            tree: entry.tree,
        };
        let ghost before = git::entries(result@);
        let ghost o = one@;
        result.push(one);
        assert(git::entries(result@) =~= before.push(o));
        assert(all.take(i + 1) =~= before.push(o));
    }
    assert(all.take(all.len() as int) =~= all);
    result
}

/// The entries at these positions.
pub open spec fn picked(entries: Seq<git::Entry>, positions: Seq<int>) -> Seq<git::Entry> {
    Seq::new(positions.len(), |i: int| entries[positions[i]])
}

/// The first path at which something stands where nothing may.
pub open spec fn first_standing(
    entries: Seq<git::Entry>,
    absent: Seq<int>,
    stands: Seq<bool>,
    n: int,
) -> Option<Seq<u8>>
    decreases n,
{
    if n <= 0 {
        None
    } else {
        match first_standing(entries, absent, stands, n - 1) {
            Some(path) => Some(path),
            None => if n - 1 < stands.len() && stands[n - 1] {
                Some(entries[absent[n - 1]].path)
            } else {
                None
            },
        }
    }
}

/// What checking the clone at one place comes to.
pub open spec fn seed_verdict(
    owned: Map<Seq<Seq<u8>>, Identity>,
    seed: Seq<u8>,
    found: Result<Identity, String>,
) -> Result<(), Failure> {
    let key = paths::components(seed);
    match found {
        Err(text) => Err(Failure::Io(text@)),
        Ok(identity) => if owned.contains_key(key) && owned[key] == identity {
            Ok(())
        } else {
            Err(
                Failure::Message(
                    "seeded clone changed during Git materialization: "@ + text::lossy_text(seed),
                ),
            )
        },
    }
}

/// What checking the first `n` clones comes to: the first error, if any.
pub open spec fn seeds_verdict(
    owned: Map<Seq<Seq<u8>>, Identity>,
    seeds: Seq<Seq<u8>>,
    found: Seq<Result<Identity, String>>,
    n: int,
) -> Result<(), Failure>
    decreases n,
{
    if n <= 0 {
        Ok(())
    } else {
        match seeds_verdict(owned, seeds, found, n - 1) {
            Err(failure) => Err(failure),
            Ok(()) => seed_verdict(owned, seeds[n - 1], found[n - 1]),
        }
    }
}

impl Population {
    pub closed spec fn view(&self) -> Filling {
        Filling {
            stage: self.stage,
            facts: self.facts,
            commit: self.commit@,
            entries: git::entries(self.entries@),
            wanted: donors::numbers(self.wanted@),
            omitted: donors::numbers(self.omitted@),
            safe: self.safe@,
            inventories: self.inventories@,
            jobs: seeding::seed_plans(self.jobs@),
            seeds: bytes::views(self.seeds@),
            sources: text::texts(self.sources@).to_set(),
            absent: donors::numbers(self.rest.absent@),
            missing: donors::numbers(self.rest.missing@),
            gitlinks: donors::numbers(self.rest.gitlinks@),
            owned: self.creation.owned(),
            directories: self.creation.directories(),
        }
    }

    /// Positions are those of entries, and what the facts say is so.
    pub closed spec fn wf(&self) -> bool {
        let n = self.entries@.len() as int;
        &&& seeding::within(self.wanted@, n)
        &&& seeding::within(self.omitted@, n)
        &&& seeding::within(self.rest.absent@, n)
        &&& seeding::within(self.rest.missing@, n)
        &&& seeding::within(self.rest.gitlinks@, n)
        &&& forall|k: int| 0 <= k < self.inventories@.len() ==> (#[trigger] self.inventories@[k]).wf()
        &&& forall|j: int| 0 <= j < self.jobs@.len() ==> (#[trigger] self.jobs@[j]).entry < n
        &&& self.facts.wanted == (self.wanted@.len() > 0)
        &&& self.facts.missing == (self.rest.missing@.len() > 0)
        &&& create::rank(self.stage) > create::rank(Stage::RequireSeeds) && self.facts.wanted
            ==> self.seeds@.len() > 0
        &&& create::rank(self.stage) <= create::rank(Stage::ListTree) ==> {
            &&& self.wanted@.len() == 0
            &&& self.omitted@.len() == 0
            &&& self.jobs@.len() == 0
            &&& self.rest.absent@.len() == 0
            &&& self.rest.missing@.len() == 0
            &&& self.rest.gitlinks@.len() == 0
        }
        &&& !create::is_idle(self.stage, self.facts)
        &&& text::texts(self.sources@).no_duplicates()
        &&& forall|k: int|
            0 <= k < n ==> paths::is_safe_relative((#[trigger] self.entries@[k]).path@)
    }

    /// Begins to fill a worktree that was registered as `creation` says.
    pub fn new(creation: Creation, locked: bool, quiet: bool) -> (population: Self)
        ensures
            population.wf(),
            population@ == (Filling {
                stage: Stage::CheckAuthority,
                facts: Facts {
                    sparse: false,
                    omitted: false,
                    wanted: false,
                    missing: false,
                    index_sparse: false,
                    locked,
                    quiet,
                    hook_code: 0,
                },
                commit: Seq::empty(),
                entries: Seq::empty(),
                wanted: Seq::empty(),
                omitted: Seq::empty(),
                safe: Set::empty(),
                inventories: Seq::empty(),
                jobs: Seq::empty(),
                seeds: Seq::empty(),
                sources: Set::empty(),
                absent: Seq::empty(),
                missing: Seq::empty(),
                gitlinks: Seq::empty(),
                owned: creation.owned(),
                directories: creation.directories(),
            }),
    {
        let facts = Facts {
            sparse: false,
            omitted: false,
            wanted: false,
            missing: false,
            index_sparse: false,
            locked,
            quiet,
            hook_code: 0,
        };
        let rest = Remainder { absent: Vec::new(), missing: Vec::new(), gitlinks: Vec::new() };
        let population = Population {
            stage: Stage::CheckAuthority,
            facts,
            commit: String::new(),
            entries: Vec::new(),
            wanted: Vec::new(),
            omitted: Vec::new(),
            safe: SafePaths::none(),
            inventories: Vec::new(),
            jobs: Vec::new(),
            seeds: Vec::new(),
            sources: Vec::new(),
            rest,
            creation,
        };
        proof {
            let v = population@;
            assert(v.commit =~= Seq::<char>::empty());
            assert(v.entries =~= Seq::<git::Entry>::empty());
            assert(v.wanted =~= Seq::<int>::empty());
            assert(v.omitted =~= Seq::<int>::empty());
            assert(v.inventories =~= Seq::<Inventory>::empty());
            assert(v.jobs =~= Seq::<SeedPlan>::empty());
            assert(v.seeds =~= Seq::<Seq<u8>>::empty());
            assert(text::texts(population.sources@) =~= Seq::<Seq<char>>::empty());
            assert(v.sources =~= Set::<Seq<char>>::empty());
            assert(v.absent =~= Seq::<int>::empty());
            assert(v.missing =~= Seq::<int>::empty());
            assert(v.gitlinks =~= Seq::<int>::empty());
        }
        population
    }

    /// The stage that is due.
    pub fn stage(&self) -> (stage: Stage)
        ensures
            stage == self@.stage,
    {
        self.stage
    }

    pub fn commit(&self) -> (commit: &str)
        ensures
            commit@ == self@.commit,
    {
        self.commit.as_str()
    }

    /// What was made so far.
    pub fn creation(&self) -> (creation: &Creation)
        ensures
            creation.owned() == self@.owned,
            creation.directories() == self@.directories,
    {
        &self.creation
    }

    fn proceed(&mut self)
        requires
            old(self).wf(),
            old(self)@.stage != Stage::Done,
            old(self)@.stage == Stage::RequireSeeds && old(self)@.facts.wanted ==> old(
                self,
            )@.seeds.len() > 0,
        ensures
            final(self).wf(),
            final(self)@ == old(self)@.proceed(),
    {
        let ghost before = *self;
        self.stage = create::following(self.stage, &self.facts);
        proof {
            if create::rank(self.stage) > create::rank(Stage::RequireSeeds) && create::rank(
                before.stage,
            ) < create::rank(Stage::RequireSeeds) {
                create::no_stage_is_skipped(
                    before.stage,
                    self.stage,
                    Stage::RequireSeeds,
                    self.facts,
                );
            }
            if create::rank(before.stage) == create::rank(Stage::RequireSeeds) {
                assert(before.stage == Stage::RequireSeeds);
                assert(before@.seeds.len() == before.seeds@.len());
            }
        }
    }

    /// After the registration was looked at, at the beginning or after Git
    /// wrote files. An interruption counts first.
    pub fn authority_checked(
        &mut self,
        signal: usize,
        root: Result<Place, String>,
        link: Result<Identity, String>,
    ) -> (result: Result<(), Error>)
        requires
            old(self).wf(),
            old(self)@.stage == Stage::CheckAuthority || old(self)@.stage == Stage::Revalidate,
        ensures
            final(self).wf(),
            fresh::opened_view(result) == (if signal != 0 {
                Err(Failure::Message("worktree creation interrupted"@))
            } else {
                old(self)@.authority(root, link)
            }),
            final(self)@ == (if result is Ok {
                old(self)@.proceed()
            } else {
                old(self)@
            }),
    {
        ownership::check_cancelled(signal)?;
        self.creation.verify_authority(root, link)?;
        self.proceed();
        Ok(())
    }

    /// After the registration was looked at before Git writes files.
    pub fn materialize(&mut self, root: Result<Place, String>, link: Result<Identity, String>) -> (result:
        Result<(), Error>)
        requires
            old(self).wf(),
            old(self)@.stage == Stage::Materialize,
        ensures
            final(self).wf(),
            fresh::opened_view(result) == old(self)@.authority(root, link),
            final(self)@ == (if result is Ok {
                old(self)@.proceed()
            } else {
                old(self)@
            }),
    {
        self.creation.verify_authority(root, link)?;
        self.proceed();
        Ok(())
    }

    /// After the commit was read.
    pub fn commit_read(&mut self, output: ProcessOutput) -> (result: Result<(), Error>)
        requires
            old(self).wf(),
            old(self)@.stage == Stage::ReadCommit,
        ensures
            final(self).wf(),
            result is Ok <==> output.succeeded(),
            result matches Err(error) ==> error@ == process::process_failure(output),
            final(self)@ == (if result is Ok {
                (Filling {
                    commit: text::trim(text::lossy_text(output.stdout@)),
                    ..old(self)@
                }).proceed()
            } else {
                old(self)@
            }),
    {
        let commit = Git.text(output)?;
        self.commit = commit;
        self.proceed();
        Ok(())
    }

    /// A stage whose command has no result but that it succeeds.
    pub open spec fn is_plain(stage: Stage) -> bool {
        stage == Stage::ResetIndex || stage == Stage::OmitPaths || stage == Stage::CheckOutMissing
            || stage == Stage::ReapplySparse || stage == Stage::RefreshIndex || stage
            == Stage::Unlock
    }

    /// After a command that only has to succeed. What it wrote to standard
    /// error is to be passed on.
    pub fn command_done(&mut self, output: ProcessOutput, written: Option<Result<(), String>>) -> (result:
        Result<Vec<u8>, Error>)
        requires
            old(self).wf(),
            Population::is_plain(old(self)@.stage),
        ensures
            final(self).wf(),
            result is Ok <==> command(output, written) is Ok,
            result matches Ok(relayed) ==> relayed@ == output.stderr@,
            result matches Err(error) ==> command(output, written) == Err::<Seq<u8>, Failure>(
                error@,
            ),
            final(self)@ == (if result is Ok {
                old(self)@.proceed()
            } else {
                old(self)@
            }),
    {
        let (_, relayed) = Git.bytes(output, written)?;
        self.proceed();
        Ok(relayed)
    }

    /// After the tree of the commit was listed.
    pub fn tree_listed(&mut self, output: ProcessOutput) -> (result: Result<Vec<u8>, Error>)
        requires
            old(self).wf(),
            old(self)@.stage == Stage::ListTree,
        ensures
            final(self).wf(),
            ({
                let read = match command(output, None) {
                    Err(failure) => Err::<Seq<git::Entry>, Failure>(failure),
                    Ok(listing) => git::records_entries(git::nul_records(listing)),
                };
                &&& result is Ok <==> read is Ok
                &&& result matches Ok(relayed) ==> relayed@ == output.stderr@
                &&& result matches Err(error) ==> read == Err::<Seq<git::Entry>, Failure>(error@)
                &&& final(self)@ == (if result is Ok {
                    (Filling { entries: read->Ok_0, ..old(self)@ }).proceed()
                } else {
                    old(self)@
                })
            }),
    {
        let (listing, relayed) = Git.bytes(output, None)?;
        let entries = git::parse_tree(listing.as_slice())?;
        proof {
            let records = git::nul_records(listing@);
            assert forall|k: int| 0 <= k < entries@.len() implies paths::is_safe_relative(
                (#[trigger] entries@[k]).path@,
            ) by {
                git::tree_paths_are_safe(records, k);
                assert(git::entries(entries@)[k] == entries@[k]@);
            }
        }
        self.entries = entries;
        self.proceed();
        Ok(relayed)
    }

    fn set_index(&mut self, matched: &Option<Vec<u8>>)
        requires
            old(self).wf(),
            old(self)@.stage == Stage::ReadSparse || old(self)@.stage == Stage::MatchSparse,
        ensures
            final(self).wf(),
            final(self)@ == old(self)@.with_index(worktree::optional_path(*matched)),
    {
        let plan = seeding::index_plan(&self.entries, matched);
        proof {
            assert(donors::numbers(plan.wanted@).len() == plan.wanted@.len());
            assert(donors::numbers(plan.omitted@).len() == plan.omitted@.len());
        }
        self.facts.wanted = plan.wanted.len() > 0;
        self.facts.omitted = plan.omitted.len() > 0;
        self.wanted = plan.wanted;
        self.omitted = plan.omitted;
    }

    /// After it was read whether the checkout is sparse. Where it is not, every
    /// path is checked out.
    pub fn sparse_read(&mut self, output: ProcessOutput) -> (result: Result<(), Error>)
        requires
            old(self).wf(),
            old(self)@.stage == Stage::ReadSparse,
        ensures
            final(self).wf(),
            fresh::opened_view(result) == (match switch(output) {
                Ok(_) => Ok(()),
                Err(failure) => Err(failure),
            }),
            final(self)@ == (match switch(output) {
                Err(_) => old(self)@,
                Ok(true) => (Filling {
                    facts: Facts { sparse: true, ..old(self)@.facts },
                    ..old(self)@
                }).proceed(),
                Ok(false) => (Filling {
                    facts: Facts { sparse: false, ..old(self)@.facts },
                    ..old(self)@
                }).with_index(None).proceed(),
            }),
    {
        let sparse = attributes::config_bool(output)?;
        self.facts.sparse = sparse;
        if !sparse {
            self.set_index(&None);
        }
        self.proceed();
        Ok(())
    }

    /// All paths of the tree, for Git to match.
    pub fn all_paths(&self) -> (list: Vec<u8>)
        ensures
            list@ == bytes::terminate(
                Seq::new(self@.entries.len(), |i: int| self@.entries[i].path),
                0,
            ),
    {
        let ghost all = Seq::new(self@.entries.len(), |i: int| self@.entries[i].path);
        let mut list: Vec<u8> = Vec::new();
        assert(all.take(0) =~= Seq::<Seq<u8>>::empty());
        for i in 0..self.entries.len()
            invariant
                all == Seq::new(self@.entries.len(), |i: int| self@.entries[i].path),
                self@.entries == git::entries(self.entries@),
                list@ == bytes::terminate(all.take(i as int), 0),
        {
            assert(all.take(i + 1).drop_last() =~= all.take(i as int));
            let path = self.entries[i].path.as_slice();
            assert(all.take(i + 1).last() == path@);
            bytes::append(&mut list, path);
            list.push(0);
        }
        assert(all.take(all.len() as int) =~= all);
        list
    }

    /// After the paths that a sparse checkout takes in were matched.
    pub fn sparse_matched(&mut self, output: ProcessOutput, written: Option<Result<(), String>>) -> (result:
        Result<Vec<u8>, Error>)
        requires
            old(self).wf(),
            old(self)@.stage == Stage::MatchSparse,
        ensures
            final(self).wf(),
            result is Ok <==> command(output, written) is Ok,
            result matches Ok(relayed) ==> relayed@ == output.stderr@,
            result matches Err(error) ==> command(output, written) == Err::<Seq<u8>, Failure>(
                error@,
            ),
            final(self)@ == (if result is Ok {
                old(self)@.with_index(Some(output.stdout@)).proceed()
            } else {
                old(self)@
            }),
    {
        let (listing, relayed) = Git.bytes(output, written)?;
        let matched = Some(listing);
        self.set_index(&matched);
        self.proceed();
        Ok(relayed)
    }

    /// The paths that are not checked out, each followed by NUL.
    pub fn omitted_paths(&self) -> (list: Vec<u8>)
        requires
            self.wf(),
        ensures
            list@ == bytes::terminate(seeding::paths_at(self@.entries, self@.omitted), 0),
    {
        seeding::listed(&self.entries, &self.omitted)
    }

    /// The paths that are checked out, each followed by NUL.
    pub fn wanted_paths(&self) -> (list: Vec<u8>)
        requires
            self.wf(),
        ensures
            list@ == bytes::terminate(seeding::paths_at(self@.entries, self@.wanted), 0),
    {
        seeding::listed(&self.entries, &self.wanted)
    }

    /// After the volume was validated.
    pub fn volume_validated(&mut self, valid: Result<(), Error>) -> (result: Result<(), Error>)
        requires
            old(self).wf(),
            old(self)@.stage == Stage::ValidateVolume,
        ensures
            final(self).wf(),
            fresh::opened_view(result) == fresh::opened_view(valid),
            final(self)@ == (if result is Ok {
                old(self)@.proceed()
            } else {
                old(self)@
            }),
    {
        match valid {
            Ok(()) => {
                self.proceed();
                Ok(())
            },
            Err(error) => Err(error),
        }
    }

    /// After the attributes of the wanted paths were listed. `converts` says
    /// that a checkout converts line endings.
    pub fn attributes_checked(
        &mut self,
        output: ProcessOutput,
        written: Option<Result<(), String>>,
        converts: bool,
    ) -> (result: Result<Vec<u8>, Error>)
        requires
            old(self).wf(),
            old(self)@.stage == Stage::CheckAttributes,
        ensures
            final(self).wf(),
            ({
                let chosen = picked(old(self)@.entries, old(self)@.wanted);
                let fields = bytes::split(output.stdout@, 0);
                let sound = attributes::well_formed(fields, chosen.len() as int);
                &&& result is Ok <==> command(output, written) is Ok && sound
                &&& result matches Ok(relayed) ==> relayed@ == output.stderr@
                &&& result matches Err(error) ==> error@ == (match command(output, written) {
                    Err(failure) => failure,
                    Ok(_) => Failure::Message("malformed checkout attribute inventory"@),
                })
                &&& final(self)@ == (if result is Ok {
                    (Filling {
                        safe: attributes::safe_paths(
                            attributes::regular_paths(chosen),
                            fields,
                            converts,
                            chosen.len() as int,
                        ),
                        ..old(self)@
                    }).proceed()
                } else {
                    old(self)@
                })
            }),
    {
        let (listing, relayed) = Git.bytes(output, written)?;
        let chosen = entries_at(&self.entries, &self.wanted);
        proof {
            assert(git::entries(chosen@).len() == chosen@.len());
        }
        let safe = attributes::checkout_safe(&chosen, listing.as_slice(), converts)?;
        self.safe = safe;
        self.proceed();
        Ok(relayed)
    }

    /// Adds what a source holds, from the listing of its tree. Sources are
    /// tried in the order in which they are added.
    pub fn add_inventory(&mut self, source: usize, listing: &[u8]) -> (result: Result<(), Error>)
        requires
            old(self).wf(),
            old(self)@.stage == Stage::InventoryDonors,
        ensures
            final(self).wf(),
            ({
                let read = git::records_entries(git::nul_records(listing@));
                &&& result is Ok <==> read is Ok
                &&& result matches Err(error) ==> read == Err::<Seq<git::Entry>, Failure>(error@)
                    && final(self)@ == old(self)@
                &&& result is Ok ==> {
                    let added = final(self)@.inventories.last();
                    &&& final(self)@ == (Filling {
                        inventories: old(self)@.inventories.push(added),
                        ..old(self)@
                    })
                    &&& added.donor() == source
                    &&& added.entries() == read->Ok_0
                }
            }),
    {
        let inventory = Inventory::read(source, listing)?;
        let ghost before = self@;
        let ghost added = inventory;
        self.inventories.push(inventory);
        assert(self@.inventories =~= before.inventories.push(added));
        Ok(())
    }

    /// After every source was looked at: plans what to clone.
    pub fn plan_seeds(&mut self)
        requires
            old(self).wf(),
            old(self)@.stage == Stage::InventoryDonors,
        ensures
            final(self).wf(),
            final(self)@ == (Filling {
                jobs: seeding::seed_jobs_of(
                    old(self)@.entries,
                    old(self)@.wanted,
                    old(self)@.safe,
                    old(self)@.inventories,
                ),
                ..old(self)@
            }).proceed(),
    {
        let jobs = seeding::plan_seeds(&self.entries, &self.wanted, &self.safe, &self.inventories);
        self.jobs = jobs;
        self.proceed();
    }

    /// The files that can be cloned.
    pub fn jobs(&self) -> (jobs: &Vec<SeedJob>)
        requires
            self.wf(),
        ensures
            seeding::seed_plans(jobs@) == self@.jobs,
            forall|j: int| 0 <= j < jobs@.len() ==> (#[trigger] jobs@[j]).entry < self@.entries.len(),
    {
        &self.jobs
    }

    /// An entry of the tree.
    pub fn entry(&self, position: usize) -> (entry: &TreeEntry)
        requires
            position < self@.entries.len(),
        ensures
            entry@ == self@.entries[position as int],
    {
        assert(git::entries(self.entries@)[position as int] == self.entries@[position as int]@);
        &self.entries[position]
    }

    /// Takes in a directory above a file that is to be cloned.
    pub fn settle_parent(&mut self, parent: &[u8], found: Result<Named, String>) -> (result: Result<
        (),
        Error,
    >)
        requires
            old(self).wf(),
            old(self)@.stage == Stage::PlanSeeds,
        ensures
            final(self).wf(),
            ({
                let key = paths::components(parent@);
                let known = old(self)@.directories.contains_key(key);
                &&& result is Ok <==> (found matches Ok(named) && (known ==> named.directory
                    && old(self)@.directories[key] == named.place))
                &&& result matches Err(error) ==> error@ == (match found {
                    Err(text) => Failure::Io(text@),
                    Ok(_) => Failure::UnsafePath(parent@),
                })
                &&& final(self)@ == (if result is Ok && !known {
                    Filling {
                        directories: old(self)@.directories.insert(key, found->Ok_0.place),
                        ..old(self)@
                    }
                } else {
                    old(self)@
                })
            }),
    {
        self.creation.settle_parent(parent, found)
    }

    /// After all directories above files that are to be cloned were made.
    pub fn parents_made(&mut self, signal: usize) -> (result: Result<(), Error>)
        requires
            old(self).wf(),
            old(self)@.stage == Stage::PlanSeeds,
        ensures
            final(self).wf(),
            result is Ok <==> signal == 0,
            result matches Err(error) ==> error@ == Failure::Message(
                "worktree creation interrupted"@,
            ),
            final(self)@ == (if result is Ok {
                old(self)@.proceed()
            } else {
                old(self)@
            }),
    {
        ownership::check_cancelled(signal)?;
        self.proceed();
        Ok(())
    }

    /// After the workers are done. Every clone that was made is owned, also
    /// where the creation fails. Where there was nothing to clone, no worker
    /// was interrupted either.
    pub fn files_seeded(&mut self, shares: Vec<Share>, signal: usize) -> (result: Result<(), Error>)
        requires
            old(self).wf(),
            old(self)@.stage == Stage::SeedFiles,
        ensures
            final(self).wf(),
            ({
                let all = ownership::all_seeds(shares@);
                let idle = old(self)@.jobs.len() == 0;
                let made = Filling {
                    owned: ownership::owned_after(old(self)@.owned, all),
                    ..old(self)@
                };
                &&& fresh::opened_view(result) == (if signal != 0 && !idle {
                    Err(Failure::Message("worktree creation interrupted"@))
                } else {
                    match ownership::first_error(shares@) {
                        Some(failure) => Err(failure),
                        None => Ok(()),
                    }
                })
                &&& final(self)@ == (if result is Ok {
                    (Filling {
                        seeds: ownership::seed_paths(all),
                        sources: ownership::seed_sources(all),
                        ..made
                    }).proceed()
                } else {
                    made
                })
            }),
    {
        proof {
            assert(self@.jobs.len() == self.jobs@.len());
        }
        let raised: usize = if self.jobs.len() == 0 {
            0
        } else {
            signal
        };
        let seeding = self.creation.collect(shares, raised)?;
        self.seeds = seeding.paths;
        self.sources = seeding.sources;
        self.proceed();
        Ok(())
    }

    /// Whether enough was cloned to go on, and what is left to do.
    pub fn seeds_required(&mut self, signal: usize) -> (result: Result<(), Error>)
        requires
            old(self).wf(),
            old(self)@.stage == Stage::RequireSeeds,
        ensures
            final(self).wf(),
            fresh::opened_view(result) == (if old(self)@.facts.wanted && old(self)@.seeds.len()
                == 0 {
                Err(
                    Failure::Message(
                        "COW creation unavailable: no verified, checkout-compatible source files on the destination APFS volume; no full-copy fallback was used"@,
                    ),
                )
            } else if signal != 0 {
                Err(Failure::Message("worktree creation interrupted"@))
            } else {
                Ok(())
            }),
            final(self)@ == (if result is Ok {
                old(self)@.with_remainder().proceed()
            } else {
                old(self)@
            }),
    {
        proof {
            assert(self@.seeds.len() == self.seeds@.len());
        }
        create::require_seeds(self.facts.wanted, self.seeds.len())?;
        ownership::check_cancelled(signal)?;
        let set = pathmap::path_set(&self.seeds);
        let rest = create::remainder(&self.entries, &self.wanted, &set);
        proof {
            assert(donors::numbers(rest.missing@).len() == rest.missing@.len());
        }
        self.facts.missing = rest.missing.len() > 0;
        self.rest = rest;
        self.proceed();
        Ok(())
    }

    /// The positions of the entries where nothing may stand.
    pub fn absent(&self) -> (list: &Vec<usize>)
        requires
            self.wf(),
        ensures
            donors::numbers(list@) == self@.absent,
            seeding::within(list@, self@.entries.len() as int),
    {
        &self.rest.absent
    }

    /// The positions of the submodules.
    pub fn gitlinks(&self) -> (list: &Vec<usize>)
        requires
            self.wf(),
        ensures
            donors::numbers(list@) == self@.gitlinks,
            seeding::within(list@, self@.entries.len() as int),
    {
        &self.rest.gitlinks
    }

    /// After the paths that Git is to write were looked at: `stands` says of
    /// each whether something is there.
    pub fn absence_checked(&mut self, stands: &Vec<bool>) -> (result: Result<(), Error>)
        requires
            old(self).wf(),
            old(self)@.stage == Stage::CheckAbsent,
        ensures
            final(self).wf(),
            ({
                let standing = first_standing(
                    old(self)@.entries,
                    old(self)@.absent,
                    stands@,
                    old(self)@.absent.len() as int,
                );
                &&& result is Ok <==> standing is None
                &&& result matches Err(error) ==> error@ == Failure::Message(
                    "unexpected destination path: "@ + text::lossy_text(standing->0),
                )
                &&& final(self)@ == (if result is Ok {
                    old(self)@.proceed()
                } else {
                    old(self)@
                })
            }),
    {
        let ghost all = self@.entries;
        let ghost absent = self@.absent;
        let count: usize = self.rest.absent.len();
        assert(absent.len() == count);
        for i in 0..count
            invariant
                self.wf(),
                *self == *old(self),
                all == self@.entries,
                absent == self@.absent,
                count == self.rest.absent@.len(),
                absent.len() == count,
                first_standing(all, absent, stands@, i as int) is None,
        {
            let at: usize = self.rest.absent[i];
            assert(absent[i as int] == at as int);
            let standing = i < stands.len() && stands[i];
            if standing {
                proof {
                    lemma_first_standing(all, absent, stands@, i + 1, count as int);
                    assert(all[at as int] == self.entries@[at as int]@);
                }
                return create::check_absent(self.entries[at].path.as_slice(), true);
            }
        }
        self.proceed();
        Ok(())
    }

    /// The paths that Git writes, each followed by NUL.
    pub fn missing_paths(&self) -> (list: Vec<u8>)
        requires
            self.wf(),
        ensures
            list@ == bytes::terminate(seeding::paths_at(self@.entries, self@.missing), 0),
    {
        seeding::listed(&self.entries, &self.rest.missing)
    }

    /// After the directories of the submodules were made.
    pub fn gitlinks_made(&mut self, made: Result<(), String>) -> (result: Result<(), Error>)
        requires
            old(self).wf(),
            old(self)@.stage == Stage::MakeGitlinks,
        ensures
            final(self).wf(),
            result is Ok <==> made is Ok,
            result matches Err(error) ==> error@ == Failure::Io(made->Err_0@),
            final(self)@ == (if result is Ok {
                old(self)@.proceed()
            } else {
                old(self)@
            }),
    {
        match made {
            Ok(()) => {
                self.proceed();
                Ok(())
            },
            Err(text) => Err(Error::Io(text)),
        }
    }

    /// After it was read whether the index is sparse.
    pub fn index_sparse_read(&mut self, output: ProcessOutput) -> (result: Result<(), Error>)
        requires
            old(self).wf(),
            old(self)@.stage == Stage::ReadIndexSparse,
        ensures
            final(self).wf(),
            fresh::opened_view(result) == (match switch(output) {
                Ok(_) => Ok(()),
                Err(failure) => Err(failure),
            }),
            final(self)@ == (match switch(output) {
                Err(_) => old(self)@,
                Ok(on) => (Filling {
                    facts: Facts { index_sparse: on, ..old(self)@.facts },
                    ..old(self)@
                }).proceed(),
            }),
    {
        let on = attributes::config_bool(output)?;
        self.facts.index_sparse = on;
        self.proceed();
        Ok(())
    }

    /// The paths that were cloned.
    pub fn seeds(&self) -> (list: &Vec<Vec<u8>>)
        ensures
            bytes::views(list@) == self@.seeds,
    {
        &self.seeds
    }

    /// After the clones were looked at again: `found` is what stands at each.
    pub fn seeds_checked(&mut self, found: Vec<Result<Identity, String>>) -> (result: Result<
        (),
        Error,
    >)
        requires
            old(self).wf(),
            old(self)@.stage == Stage::CheckSeeds,
            found@.len() == old(self)@.seeds.len(),
        ensures
            final(self).wf(),
            fresh::opened_view(result) == seeds_verdict(
                old(self)@.owned,
                old(self)@.seeds,
                found@,
                found@.len() as int,
            ),
            final(self)@ == (if result is Ok {
                old(self)@.proceed()
            } else {
                old(self)@
            }),
    {
        match self.check_seeds(found) {
            Ok(()) => {
                self.proceed();
                Ok(())
            },
            Err(error) => Err(error),
        }
    }

    #[verifier::loop_isolation(false)]
    fn check_seeds(&self, found: Vec<Result<Identity, String>>) -> (result: Result<(), Error>)
        requires
            found@.len() == self@.seeds.len(),
        ensures
            fresh::opened_view(result) == seeds_verdict(
                self@.owned,
                self@.seeds,
                found@,
                found@.len() as int,
            ),
    {
        let ghost given = found@;
        let ghost owned = self@.owned;
        let ghost seeds = self@.seeds;
        let mut pending = found;
        let count: usize = pending.len();
        for i in 0..count
            invariant
                count == given.len(),
                pending@.len() == count,
                self.seeds@.len() == count,
                forall|k: int| i <= k < count ==> #[trigger] pending@[k] == given[k],
                seeds_verdict(owned, seeds, given, i as int) is Ok,
        {
            let mut one: Result<Identity, String> = Err(String::new());
            std::mem::swap(&mut one, &mut pending[i]);
            assert(one == given[i as int]);
            assert(seeds[i as int] == self.seeds@[i as int]@);
            match create::check_seed(&self.creation, self.seeds[i].as_slice(), one) {
                Ok(()) => {},
                Err(error) => {
                    proof {
                        lemma_seeds_verdict(owned, seeds, given, i + 1, count as int);
                    }
                    return Err(error);
                },
            }
        }
        Ok(())
    }

    /// After the head was read again.
    pub fn head_read(&mut self, output: ProcessOutput) -> (result: Result<(), Error>)
        requires
            old(self).wf(),
            old(self)@.stage == Stage::CheckHead,
        ensures
            final(self).wf(),
            fresh::opened_view(result) == (if !output.succeeded() {
                Err(process::process_failure(output))
            } else if text::trim(text::lossy_text(output.stdout@)) != old(self)@.commit {
                Err(Failure::Message("target HEAD changed during creation"@))
            } else {
                Ok(())
            }),
            final(self)@ == (if result is Ok {
                old(self)@.proceed()
            } else {
                old(self)@
            }),
    {
        let head = Git.text(output)?;
        create::check_head(head.as_str(), self.commit.as_str())?;
        self.proceed();
        Ok(())
    }

    /// After Git reported the state of the worktree.
    pub fn cleanliness_read(&mut self, output: ProcessOutput) -> (result: Result<Vec<u8>, Error>)
        requires
            old(self).wf(),
            old(self)@.stage == Stage::CheckClean,
        ensures
            final(self).wf(),
            ({
                let clean = match command(output, None) {
                    Err(failure) => Err::<(), Failure>(failure),
                    Ok(report) => if report.len() == 0 {
                        Ok(())
                    } else {
                        Err(Failure::Message("checkout validation failed; worktree is not clean"@))
                    },
                };
                &&& result is Ok <==> clean is Ok
                &&& result matches Ok(relayed) ==> relayed@ == output.stderr@
                &&& result matches Err(error) ==> clean == Err::<(), Failure>(error@)
                &&& final(self)@ == (if result is Ok {
                    old(self)@.proceed()
                } else {
                    old(self)@
                })
            }),
    {
        let (report, relayed) = Git.bytes(output, None)?;
        create::check_clean(report.as_slice())?;
        self.proceed();
        Ok(relayed)
    }

    /// The worktree is complete: it stays, whatever follows.
    pub fn completed(&mut self)
        requires
            old(self).wf(),
            old(self)@.stage == Stage::Complete,
        ensures
            final(self).wf(),
            final(self)@ == old(self)@.proceed(),
    {
        self.proceed();
    }

    /// After the summary line was read: it is to be shown, and standard error
    /// to be passed on.
    pub fn summary_read(&mut self, output: ProcessOutput) -> (result: Result<
        (Vec<u8>, Vec<u8>),
        Error,
    >)
        requires
            old(self).wf(),
            old(self)@.stage == Stage::ShowSummary,
        ensures
            final(self).wf(),
            result is Ok <==> output.succeeded(),
            result matches Ok((line, relayed)) ==> line@ == output.stdout@ && relayed@
                == output.stderr@,
            result matches Err(error) ==> error@ == process::process_failure(output),
            final(self)@ == (if result is Ok {
                old(self)@.proceed()
            } else {
                old(self)@
            }),
    {
        let shown = Git.bytes(output, None)?;
        self.proceed();
        Ok(shown)
    }

    /// After the hook ran.
    pub fn hook_done(&mut self, code: i32)
        requires
            old(self).wf(),
            old(self)@.stage == Stage::RunHook,
        ensures
            final(self).wf(),
            final(self)@ == (Filling {
                facts: Facts { hook_code: code, ..old(self)@.facts },
                ..old(self)@
            }).proceed(),
    {
        self.facts.hook_code = code;
        self.proceed();
    }

    /// The exit status of the creation: that of the hook.
    pub fn code(&self) -> (code: i32)
        ensures
            code == self@.facts.hook_code,
    {
        self.facts.hook_code
    }

    /// The commits that were cloned from, in the order of their bytes.
    pub fn provenance(&self) -> (list: Vec<String>)
        requires
            self.wf(),
        ensures
            text::texts(list@).to_set() == self@.sources,
            create::is_ascending(text::texts(list@)),
    {
        create::sorted_sources(&self.sources)
    }

    /// After the receipt was recorded, or could not be.
    pub fn receipt_done(&mut self)
        requires
            old(self).wf(),
            old(self)@.stage == Stage::RecordReceipt,
        ensures
            final(self).wf(),
            final(self)@ == old(self)@.proceed(),
    {
        self.proceed();
    }

    /// What is to be done about the worktree when the creation fails here.
    pub fn cleanup(&self) -> (step: Cleanup)
        ensures
            step == ownership::cleanup_start(
                create::rank(self@.stage) >= create::rank(Stage::Complete),
                create::rank(self@.stage) >= create::rank(Stage::Materialize),
            ),
    {
        ownership::cleanup(
            create::is_complete(self.stage),
            create::is_materializing(self.stage),
        )
    }

    /// A checkout that is not empty is never completed without a clone.
    pub proof fn completed_checkout_has_clones(&self)
        requires
            self.wf(),
            create::rank(self@.stage) >= create::rank(Stage::Materialize),
            self@.wanted.len() > 0,
        ensures
            self@.seeds.len() > 0,
    {
        assert(self@.wanted.len() == self.wanted@.len());
        assert(self@.seeds.len() == self.seeds@.len());
    }
}

proof fn lemma_first_standing(
    entries: Seq<git::Entry>,
    absent: Seq<int>,
    stands: Seq<bool>,
    m: int,
    n: int,
)
    requires
        m <= n,
        first_standing(entries, absent, stands, m) is Some,
    ensures
        first_standing(entries, absent, stands, n) == first_standing(entries, absent, stands, m),
    decreases n,
{
    if m < n && n > 0 {
        lemma_first_standing(entries, absent, stands, m, n - 1);
    }
}

proof fn lemma_seeds_verdict(
    owned: Map<Seq<Seq<u8>>, Identity>,
    seeds: Seq<Seq<u8>>,
    found: Seq<Result<Identity, String>>,
    m: int,
    n: int,
)
    requires
        m <= n,
        seeds_verdict(owned, seeds, found, m) is Err,
    ensures
        seeds_verdict(owned, seeds, found, n) == seeds_verdict(owned, seeds, found, m),
    decreases n,
{
    if m < n && n > 0 {
        lemma_seeds_verdict(owned, seeds, found, m, n - 1);
    }
}

/// Every path of the checkout comes from exactly one hand: a clone, or Git's
/// checkout, or the directory of a submodule. Git writes no path that was
/// cloned.
pub proof fn every_wanted_path_is_provided(filling: Filling, i: int)
    requires
        filling.wanted.contains(i),
    ensures
        ({
            let rest = filling.with_remainder();
            let cloned = pathmap::listed(filling.seeds).contains(
                paths::components(filling.entries[i].path),
            );
            let gitlink = filling.entries[i].gitlink;
            &&& rest.missing.contains(i) <==> !cloned && !gitlink
            &&& rest.gitlinks.contains(i) <==> gitlink
            &&& rest.absent.contains(i) <==> !cloned
        }),
{
    let set = pathmap::listed(filling.seeds);
    seeding::lemma_select(filling.wanted, create::written_by_git(filling.entries, set), i);
    seeding::lemma_select(filling.wanted, create::is_gitlink(filling.entries), i);
    seeding::lemma_select(filling.wanted, create::unseeded(filling.entries, set), i);
}

/// The clones that a completed check let pass are those that were made.
pub proof fn checked_seeds_are_owned(
    owned: Map<Seq<Seq<u8>>, Identity>,
    seeds: Seq<Seq<u8>>,
    found: Seq<Result<Identity, String>>,
    n: int,
    i: int,
)
    requires
        0 <= i < n,
        seeds_verdict(owned, seeds, found, n) is Ok,
    ensures
        found[i] matches Ok(identity) && owned.contains_key(paths::components(seeds[i]))
            && owned[paths::components(seeds[i])] == identity,
    decreases n,
{
    if i < n - 1 {
        checked_seeds_are_owned(owned, seeds, found, n - 1, i);
    }
}

/// A command gives what it printed where it succeeded and could be fed; where it
/// failed, that is the error, whatever else went wrong.
pub proof fn failed_commands_are_reported(
    output: ProcessOutput,
    written: Option<Result<(), String>>,
)
    ensures
        output.code == Some(0i32) && !(written matches Some(Err(_))) ==> command(output, written)
            == Ok::<Seq<u8>, Failure>(output.stdout@),
        output.code == Some(0i32) && (written matches Some(Err(_))) ==> command(output, written)
            == Err::<Seq<u8>, Failure>(Failure::Io(written->0->Err_0@)),
        output.code != Some(0i32) ==> command(output, written) == Err::<Seq<u8>, Failure>(
            process::process_failure(output),
        ),
{
}

/// A setting is on where Git printed `true`. It is off where Git printed anything
/// else or found none; any other status is an error.
pub proof fn settings_are_on_when_true(output: ProcessOutput)
    ensures
        switch(output) == Ok::<bool, Failure>(true) <==> output.code == Some(0i32)
            && output.stdout@ == "true\n".spec_bytes(),
        switch(output) == Ok::<bool, Failure>(false) <==> output.code == Some(1i32) || (output.code
            == Some(0i32) && output.stdout@ != "true\n".spec_bytes()),
        switch(output) is Err ==> switch(output) == Err::<bool, Failure>(
            Failure::Git(text::lossy_text(output.stderr@)),
        ),
{
}

/// The first path counts at which something stands.
pub proof fn the_first_path_that_stands_counts(
    entries: Seq<git::Entry>,
    absent: Seq<int>,
    stands: Seq<bool>,
    n: int,
    i: int,
)
    ensures
        (0 <= i < n && i < stands.len() && stands[i] && forall|j: int|
            0 <= j < i ==> !(#[trigger] stands[j])) ==> first_standing(entries, absent, stands, n)
            == Some(entries[absent[i]].path),
        (forall|j: int| 0 <= j < n && j < stands.len() ==> !(#[trigger] stands[j]))
            ==> first_standing(entries, absent, stands, n) is None,
    decreases n,
{
    if n > 0 {
        the_first_path_that_stands_counts(entries, absent, stands, n - 1, i);
    }
}

/// The clones are accepted where at each path the very file stands that was made
/// there; otherwise the first that is not decides.
pub proof fn the_first_changed_clone_counts(
    owned: Map<Seq<Seq<u8>>, Identity>,
    seeds: Seq<Seq<u8>>,
    found: Seq<Result<Identity, String>>,
    n: int,
    i: int,
)
    requires
        0 <= n <= seeds.len(),
        n <= found.len(),
    ensures
        seeds_verdict(owned, seeds, found, n) is Ok <==> forall|k: int|
            0 <= k < n ==> (#[trigger] found[k]) is Ok && owned.contains_pair(
                paths::components(seeds[k]),
                found[k]->Ok_0,
            ),
        (0 <= i < n && seeds_verdict(owned, seeds, found, i) is Ok) ==> {
            &&& found[i] is Err ==> seeds_verdict(owned, seeds, found, n) == Err::<(), Failure>(
                Failure::Io(found[i]->Err_0@),
            )
            &&& found[i] is Ok && !owned.contains_pair(paths::components(seeds[i]), found[i]->Ok_0)
                ==> seeds_verdict(owned, seeds, found, n) == Err::<(), Failure>(
                Failure::Message(
                    "seeded clone changed during Git materialization: "@ + text::lossy_text(
                        seeds[i],
                    ),
                ),
            )
        },
    decreases n,
{
    if n > 0 {
        the_first_changed_clone_counts(owned, seeds, found, n - 1, i);
        if seeds_verdict(owned, seeds, found, n) is Ok {
            assert forall|k: int| 0 <= k < n implies (#[trigger] found[k]) is Ok
                && owned.contains_pair(paths::components(seeds[k]), found[k]->Ok_0) by {}
        }
    }
}

/// The worktree is still the one registered where its directory and its link to
/// the repository are those that were made.
pub proof fn registered_worktrees_keep_their_link(
    filling: Filling,
    root: Result<Place, String>,
    link: Result<Identity, String>,
)
    ensures
        filling.authority(root, link) is Ok <==> {
            &&& root is Ok && filling.directories.contains_pair(Seq::empty(), root->Ok_0)
            &&& link is Ok && filling.owned.contains_pair(
                paths::components(".git".spec_bytes()),
                link->Ok_0,
            )
        },
        filling.authority(root, link) matches Err(failure) ==> failure == (if root is Err {
            Failure::Io(root->Err_0@)
        } else if filling.directories.contains_pair(Seq::empty(), root->Ok_0) && link is Err {
            Failure::Io(link->Err_0@)
        } else {
            Failure::Message("worktree registration changed during creation"@)
        }),
{
}

/// What is known of the entries says whether there is something to check out, to
/// leave out, or for Git to write.
pub proof fn facts_say_what_is_left(filling: Filling, matched: Option<Seq<u8>>)
    ensures
        ({
            let after = filling.with_index(matched);
            &&& after.facts.wanted <==> after.wanted != Seq::<int>::empty()
            &&& after.facts.omitted <==> after.omitted != Seq::<int>::empty()
            &&& after.facts.sparse == filling.facts.sparse
            &&& after.facts.locked == filling.facts.locked
            &&& after.facts.quiet == filling.facts.quiet
            &&& after.entries == filling.entries
            &&& after.commit == filling.commit
            &&& after.stage == filling.stage
        }),
        ({
            let after = filling.with_remainder();
            &&& after.facts.missing <==> after.missing != Seq::<int>::empty()
            &&& after.facts.wanted == filling.facts.wanted
            &&& after.facts.sparse == filling.facts.sparse
            &&& after.facts.locked == filling.facts.locked
            &&& after.wanted == filling.wanted
            &&& after.entries == filling.entries
            &&& after.seeds == filling.seeds
            &&& after.stage == filling.stage
        }),
{
    let one = filling.with_index(matched);
    if one.wanted.len() == 0 {
        assert(one.wanted =~= Seq::<int>::empty());
    }
    if one.omitted.len() == 0 {
        assert(one.omitted =~= Seq::<int>::empty());
    }
    let two = filling.with_remainder();
    if two.missing.len() == 0 {
        assert(two.missing =~= Seq::<int>::empty());
    }
}

/// Of the wanted entries, those without a clone are written by Git but for the
/// submodules, and nothing may stand there before.
pub proof fn entries_without_a_clone_are_left(filling: Filling, i: int)
    ensures
        ({
            let after = filling.with_remainder();
            let cloned = exists|s: int|
                0 <= s < filling.seeds.len() && paths::components(#[trigger] filling.seeds[s])
                    == paths::components(filling.entries[i].path);
            let wanted = filling.wanted.contains(i);
            &&& after.absent.contains(i) <==> wanted && !cloned
            &&& after.missing.contains(i) <==> wanted && !cloned && !filling.entries[i].gitlink
            &&& after.gitlinks.contains(i) <==> wanted && filling.entries[i].gitlink
        }),
{
    let set = pathmap::listed(filling.seeds);
    pathmap::listed_paths_are_in_the_set(
        filling.seeds,
        paths::components(filling.entries[i].path),
    );
    create::what_was_not_cloned_is_written(filling.entries, filling.wanted, set, i);
}

/// Going on changes the stage and nothing else.
pub proof fn going_on_keeps_what_is_known(filling: Filling)
    ensures
        ({
            let after = filling.proceed();
            &&& after.stage == create::next_stage(filling.stage, filling.facts)
            &&& after.facts == filling.facts
            &&& after.commit == filling.commit
            &&& after.entries == filling.entries
            &&& after.wanted == filling.wanted
            &&& after.omitted == filling.omitted
            &&& after.safe == filling.safe
            &&& after.inventories == filling.inventories
            &&& after.jobs == filling.jobs
            &&& after.seeds == filling.seeds
            &&& after.sources == filling.sources
            &&& after.absent == filling.absent
            &&& after.missing == filling.missing
            &&& after.gitlinks == filling.gitlinks
            &&& after.owned == filling.owned
            &&& after.directories == filling.directories
        }),
{
}

} // verus!
