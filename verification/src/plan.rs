//! Which files of a worktree can be replaced by clones, and from where.
use crate::bytes;
use crate::digest;
use crate::donors;
use crate::donors::Inventory;
use crate::eligibility;
use crate::error::{Error, Failure};
use crate::git;
use crate::git::TreeEntry;
use crate::order;
use crate::pathmap;
use crate::pathmap::PathMap;
use crate::paths;
use crate::worktree;
use crate::worktree::Registered;
use vstd::prelude::*;
use vstd::string::*;

verus! {

/// A file that can be replaced: its path, its object, and the positions of the
/// donors that hold it.
#[derive(Debug)]
pub struct CloneJob {
    pub path: Vec<u8>,
    pub oid: String,
    pub donors: Vec<usize>,
}

/// What a job says.
pub struct Job {
    pub path: Seq<u8>,
    pub oid: Seq<char>,
    pub donors: Seq<int>,
}

impl View for CloneJob {
    type V = Job;

    open spec fn view(&self) -> Job {
        Job { path: self.path@, oid: self.oid@, donors: donors::numbers(self.donors@) }
    }
}

/// What a list of jobs says.
pub open spec fn jobs_view(jobs: Seq<CloneJob>) -> Seq<Job> {
    Seq::new(jobs.len(), |i: int| jobs[i]@)
}

/// What was found at a file's path.
#[derive(Clone, Copy, Debug, PartialEq, Eq, Structural)]
pub struct FileSize {
    pub regular: bool,
    pub size: u64,
    pub blocks: u64,
}

/// What looking at an entry found: of the directories above it, whether each is
/// one, up to the first that is not; the file itself; and, by inventory, the
/// directories above it in the donor.
#[derive(Debug)]
pub struct Seen {
    pub ancestors: Vec<bool>,
    pub file: Option<FileSize>,
    pub donors: Vec<Vec<bool>>,
}

/// What `Seen` says.
pub struct Look {
    pub ancestors: Seq<bool>,
    pub file: Option<FileSize>,
    pub donors: Seq<Seq<bool>>,
}

impl View for Seen {
    type V = Look;

    open spec fn view(&self) -> Look {
        Look {
            ancestors: self.ancestors@,
            file: self.file,
            donors: Seq::new(self.donors@.len(), |i: int| self.donors@[i]@),
        }
    }
}

impl Look {
    /// What was found of the directories in a donor.
    pub open spec fn donor(self, k: int) -> Seq<bool> {
        if 0 <= k < self.donors.len() {
            self.donors[k]
        } else {
            Seq::empty()
        }
    }
}

/// What was planned so far.
pub struct Planned {
    pub jobs: Seq<Job>,
    pub excluded: Seq<Seq<u8>>,
    pub logical: u64,
    pub allocated: u64,
    /// The directories of the target that are known to be directories.
    pub known: Set<Seq<Seq<u8>>>,
    /// The same of each donor, by inventory.
    pub known_in: Seq<Set<Seq<Seq<u8>>>>,
}

/// The sum, or the greatest number where that is too great.
pub open spec fn saturated(n: int) -> u64 {
    if n <= u64::MAX {
        n as u64
    } else {
        u64::MAX
    }
}

/// The donors among the first `n` inventories that hold an entry's object in
/// directories that are directories, and the directories then known in each.
pub open spec fn matching(
    inventories: Seq<Inventory>,
    entry: git::Entry,
    look: Look,
    known_in: Seq<Set<Seq<Seq<u8>>>>,
    n: int,
) -> (Seq<int>, Seq<Set<Seq<Seq<u8>>>>)
    decreases n,
{
    if n <= 0 {
        (Seq::empty(), known_in)
    } else {
        let (found, known) = matching(inventories, entry, look, known_in, n - 1);
        let k = n - 1;
        if inventories[k].offers(entry.path, entry.oid) {
            let unknown = eligibility::unknown_ancestors(
                paths::components(entry.path),
                known_in[k],
            );
            let after = eligibility::known_after(
                known_in[k],
                unknown,
                eligibility::confirmed(unknown.len() as int, look.donor(k)),
            );
            if eligibility::all_directories(unknown.len() as int, look.donor(k)) {
                (found.push(inventories[k].donor() as int), known.update(k, after))
            } else {
                (found, known.update(k, after))
            }
        } else {
            (found, known)
        }
    }
}

/// The donor of the inventory at a position holds an entry's object, in
/// directories that are directories.
pub open spec fn is_match(
    inventories: Seq<Inventory>,
    entry: git::Entry,
    look: Look,
    known_in: Seq<Set<Seq<Seq<u8>>>>,
) -> spec_fn(int) -> bool {
    |k: int|
        inventories[k].offers(entry.path, entry.oid) && eligibility::all_directories(
            eligibility::unknown_ancestors(
                paths::components(entry.path),
                known_in[k],
            ).len() as int,
            look.donor(k),
        )
}

/// The donors of an entry are those of just the inventories that match it, in
/// the order of the inventories.
pub proof fn matches_keep_inventory_order(
    inventories: Seq<Inventory>,
    entry: git::Entry,
    look: Look,
    known_in: Seq<Set<Seq<Seq<u8>>>>,
    n: int,
)
    requires
        0 <= n <= inventories.len(),
    ensures
        matching(inventories, entry, look, known_in, n).0 == donors::donors_at(
            inventories,
            worktree::positions(n, is_match(inventories, entry, look, known_in)),
        ),
    decreases n,
{
    let test = is_match(inventories, entry, look, known_in);
    let at = worktree::positions(n, test);
    if n > 0 {
        matches_keep_inventory_order(inventories, entry, look, known_in, n - 1);
        let before = worktree::positions(n - 1, test);
        if test(n - 1) {
            assert(donors::donors_at(inventories, at) =~= donors::donors_at(
                inventories,
                before,
            ).push(inventories[n - 1].donor() as int));
        }
    } else {
        assert(donors::donors_at(inventories, at) =~= Seq::<int>::empty());
    }
}

/// Where the inventories stand in the order in which their donors are tried, the
/// donors of an entry stand in that order too.
pub proof fn matches_are_in_turn(
    inventories: Seq<Inventory>,
    entry: git::Entry,
    look: Look,
    known_in: Seq<Set<Seq<Seq<u8>>>>,
    worktrees: Seq<Registered>,
    commit: Seq<char>,
)
    requires
        donors::in_turn(worktrees, commit, donors::donors_of(inventories)),
    ensures
        donors::in_turn(
            worktrees,
            commit,
            matching(inventories, entry, look, known_in, inventories.len() as int).0,
        ),
{
    let n = inventories.len() as int;
    let test = is_match(inventories, entry, look, known_in);
    let at = worktree::positions(n, test);
    let every = donors::donors_of(inventories);
    let found = matching(inventories, entry, look, known_in, n).0;
    matches_keep_inventory_order(inventories, entry, look, known_in, n);
    worktree::lemma_positions(n, test);
    worktree::lemma_positions_ascend(n, test);
    assert forall|a: int, b: int| 0 <= a < b < found.len() implies donors::goes_before(
        worktrees[#[trigger] found[a]],
        worktrees[#[trigger] found[b]],
        commit,
    ) by {
        assert(at[a] < at[b]);
        assert(found[a] == every[at[a]] && found[b] == every[at[b]]);
    }
}

/// Planning one entry. A file is excluded if it is no regular file in the tree
/// or in the worktree, if Git reports it as changed, or if no donor holds it. A
/// directory above it that is none is an error.
pub open spec fn plan_entry(
    state: Planned,
    inventories: Seq<Inventory>,
    changed: Set<Seq<Seq<u8>>>,
    entry: git::Entry,
    look: Look,
) -> Result<Planned, Failure> {
    let parts = paths::components(entry.path);
    let unknown = eligibility::unknown_ancestors(parts, state.known);
    let known = eligibility::known_after(
        state.known,
        unknown,
        eligibility::confirmed(unknown.len() as int, look.ancestors),
    );
    if !entry.regular || changed.contains(parts) {
        Ok(Planned { excluded: state.excluded.push(entry.path), ..state })
    } else if !eligibility::all_directories(unknown.len() as int, look.ancestors) {
        Err(Failure::UnsafePath(entry.path))
    } else if !(look.file matches Some(file) && file.regular) {
        Ok(Planned { excluded: state.excluded.push(entry.path), known, ..state })
    } else {
        let (found, known_in) = matching(
            inventories,
            entry,
            look,
            state.known_in,
            inventories.len() as int,
        );
        if found.len() == 0 {
            Ok(Planned { excluded: state.excluded.push(entry.path), known, known_in, ..state })
        } else {
            Ok(
                Planned {
                    jobs: state.jobs.push(Job { path: entry.path, oid: entry.oid, donors: found }),
                    logical: saturated(state.logical + look.file->0.size),
                    allocated: saturated(
                        state.allocated + saturated(look.file->0.blocks * 512),
                    ),
                    known,
                    known_in,
                    ..state
                },
            )
        }
    }
}

/// Planning entries one after another.
pub open spec fn planned(
    start: Planned,
    inventories: Seq<Inventory>,
    changed: Set<Seq<Seq<u8>>>,
    entries: Seq<git::Entry>,
    looks: Seq<Look>,
) -> Result<Planned, Failure>
    decreases entries.len(),
{
    if entries.len() == 0 {
        Ok(start)
    } else {
        match planned(start, inventories, changed, entries.drop_last(), looks) {
            Err(failure) => Err(failure),
            Ok(state) => plan_entry(
                state,
                inventories,
                changed,
                entries.last(),
                looks[entries.len() - 1],
            ),
        }
    }
}

/// Nothing planned yet, with as many inventories.
pub open spec fn nothing_planned(inventories: nat) -> Planned {
    Planned {
        jobs: Seq::empty(),
        excluded: Seq::empty(),
        logical: 0,
        allocated: 0,
        known: Set::empty(),
        known_in: Seq::new(inventories, |i: int| Set::empty()),
    }
}

/// What has to be looked at for an entry.
#[derive(Debug)]
pub struct Inspection {
    /// The entry is excluded without a look.
    pub skip: bool,
    /// The directories above it that are not known yet, from the top.
    pub ancestors: Vec<Vec<u8>>,
    /// By inventory: the same in the donor, where it holds the entry's object.
    pub donors: Vec<Option<Vec<Vec<u8>>>>,
}

/// A plan in the making.
pub struct Planner {
    entries: Vec<TreeEntry>,
    next: usize,
    changed: PathMap<bool>,
    inventories: Vec<Inventory>,
    known: PathMap<bool>,
    known_in: Vec<PathMap<bool>>,
    jobs: Vec<CloneJob>,
    excluded: Vec<Vec<u8>>,
    logical: u64,
    allocated: u64,
}

/// What can be replaced, and what that comes to.
#[derive(Debug)]
pub struct Plan {
    pub jobs: Vec<CloneJob>,
    pub logical_bytes: u64,
    pub allocated_bytes: u64,
    pub excluded_count: usize,
    pub excluded_hash: String,
}

/// The directories that are known in each donor.
pub open spec fn known_sets(maps: Seq<PathMap<bool>>) -> Seq<Set<Seq<Seq<u8>>>> {
    Seq::new(maps.len(), |i: int| maps[i]@.dom())
}

/// The paths in path order.
pub open spec fn in_path_order(list: Seq<Seq<u8>>) -> Seq<Seq<u8>> {
    let keys = Seq::new(list.len(), |i: int| paths::components(list[i]));
    order::arranged(list, order::sorted_order(keys))
}

/// The paths in path order, each followed by NUL.
pub open spec fn excluded_record(excluded: Seq<Seq<u8>>) -> Seq<u8> {
    bytes::terminate(in_path_order(excluded), 0)
}

/// Path order loses no path and adds none, and no path comes before one that is
/// less by its components.
pub proof fn path_order_rearranges(list: Seq<Seq<u8>>)
    requires
        list.len() <= usize::MAX,
    ensures
        in_path_order(list).to_multiset() == list.to_multiset(),
        forall|a: int, b: int|
            0 <= a < b < in_path_order(list).len() ==> !order::key_less(
                paths::components(#[trigger] in_path_order(list)[b]),
                paths::components(#[trigger] in_path_order(list)[a]),
            ),
{
    let keys = Seq::new(list.len(), |i: int| paths::components(list[i]));
    let sorted = order::sorted_order(keys);
    let all = in_path_order(list);
    order::sorted_order_is_order(keys);
    order::order_rearranges(keys, keys.len() as int, sorted, list);
    assert(list.take(list.len() as int) =~= list);
    assert forall|a: int, b: int| 0 <= a < b < all.len() implies !order::key_less(
        paths::components(#[trigger] all[b]),
        paths::components(#[trigger] all[a]),
    ) by {
        order::arranged_keys_ascend(keys, sorted, a, b);
        assert(order::arranged(keys, sorted)[a] == paths::components(all[a]));
        assert(order::arranged(keys, sorted)[b] == paths::components(all[b]));
    }
}

impl Planner {
    pub closed spec fn entries(&self) -> Seq<git::Entry> {
        git::entries(self.entries@)
    }

    /// The position of the entry to be planned next.
    pub closed spec fn next(&self) -> int {
        self.next as int
    }

    pub closed spec fn changed(&self) -> Set<Seq<Seq<u8>>> {
        self.changed@.dom()
    }

    pub closed spec fn inventories(&self) -> Seq<Inventory> {
        self.inventories@
    }

    /// What was planned so far.
    pub closed spec fn state(&self) -> Planned {
        Planned {
            jobs: jobs_view(self.jobs@),
            excluded: bytes::views(self.excluded@),
            logical: self.logical,
            allocated: self.allocated,
            known: self.known@.dom(),
            known_in: known_sets(self.known_in@),
        }
    }

    pub closed spec fn wf(&self) -> bool {
        &&& self.next <= self.entries@.len()
        &&& self.changed.wf()
        &&& self.known.wf()
        &&& self.known_in@.len() == self.inventories@.len()
        &&& forall|k: int| 0 <= k < self.inventories@.len() ==> (#[trigger] self.inventories@[k]).wf()
        &&& forall|k: int| 0 <= k < self.known_in@.len() ==> (#[trigger] self.known_in@[k]).wf()
        &&& forall|k: int|
            0 <= k < self.entries@.len() ==> paths::is_safe_relative(
                (#[trigger] self.entries@[k]).path@,
            )
        &&& self.jobs@.len() + self.excluded@.len() == self.next
    }

    /// Begins a plan: `listing` is the tree of the target, `differences` the
    /// paths that Git reports as changed.
    pub fn start(listing: &[u8], differences: &[u8]) -> (result: Result<Planner, Error>)
        ensures
            ({
                let read = git::records_entries(git::nul_records(listing@));
                &&& result is Ok <==> read is Ok
                &&& result matches Ok(planner) ==> {
                    &&& planner.wf()
                    &&& read == Ok::<Seq<git::Entry>, Failure>(planner.entries())
                    &&& planner.next() == 0
                    &&& planner.changed() == pathmap::listed(git::nul_records(differences@))
                    &&& planner.inventories().len() == 0
                    &&& planner.state() == nothing_planned(0)
                }
                &&& result matches Err(error) ==> read == Err::<Seq<git::Entry>, Failure>(error@)
            }),
    {
        let entries = git::parse_tree(listing)?;
        let names = git::nul_paths(differences);
        let changed = pathmap::path_set(&names);
        let planner = Planner {
            entries,
            next: 0,
            changed,
            inventories: Vec::new(),
            known: PathMap::new(),
            known_in: Vec::new(),
            jobs: Vec::new(),
            excluded: Vec::new(),
            logical: 0,
            allocated: 0,
        };
        proof {
            let records = git::nul_records(listing@);
            assert forall|k: int| 0 <= k < planner.entries@.len() implies paths::is_safe_relative(
                (#[trigger] planner.entries@[k]).path@,
            ) by {
                git::tree_paths_are_safe(records, k);
                assert(planner.entries()[k] == planner.entries@[k]@);
            }
            let state = planner.state();
            let empty = nothing_planned(0);
            assert(state.jobs =~= empty.jobs);
            assert(state.excluded =~= empty.excluded);
            assert(state.known =~= empty.known);
            assert(state.known_in =~= empty.known_in);
        }
        Ok(planner)
    }

    /// Adds what a donor holds, from the listing of its tree. Donors are tried
    /// in the order in which they are added.
    pub fn add_inventory(&mut self, donor: usize, listing: &[u8]) -> (result: Result<(), Error>)
        requires
            old(self).wf(),
            old(self).next() == 0,
        ensures
            final(self).wf(),
            final(self).entries() == old(self).entries(),
            final(self).next() == old(self).next(),
            final(self).changed() == old(self).changed(),
            ({
                let read = git::records_entries(git::nul_records(listing@));
                &&& result is Ok <==> read is Ok
                &&& result is Ok ==> {
                    &&& final(self).inventories().len() == old(self).inventories().len() + 1
                    &&& final(self).inventories().drop_last() == old(self).inventories()
                    &&& final(self).inventories().last().donor() == donor
                    &&& final(self).inventories().last().entries() == read->Ok_0
                    &&& final(self).state() == (Planned {
                        known_in: old(self).state().known_in.push(Set::empty()),
                        ..old(self).state()
                    })
                }
                &&& result matches Err(error) ==> read == Err::<Seq<git::Entry>, Failure>(error@)
                    && *final(self) == *old(self)
            }),
    {
        let inventory = Inventory::read(donor, listing)?;
        let ghost before = *self;
        self.inventories.push(inventory);
        self.known_in.push(PathMap::new());
        proof {
            assert(self.inventories@.drop_last() =~= before.inventories@);
            assert(known_sets(self.known_in@) =~= known_sets(before.known_in@).push(Set::empty()));
        }
        Ok(())
    }

    pub fn finished(&self) -> (yes: bool)
        requires
            self.wf(),
        ensures
            yes == (self.next() == self.entries().len()),
            !yes ==> self.next() < self.entries().len(),
    {
        self.next == self.entries.len()
    }

    /// The path of the entry to be planned next.
    pub fn path(&self) -> (path: &[u8])
        requires
            self.wf(),
            self.next() < self.entries().len(),
        ensures
            path@ == self.entries()[self.next()].path,
    {
        self.entries[self.next].path.as_slice()
    }

    /// What has to be looked at for the next entry.
    pub fn inspect(&self) -> (inspection: Inspection)
        requires
            self.wf(),
            self.next() < self.entries().len(),
        ensures
            ({
                let entry = self.entries()[self.next()];
                let parts = paths::components(entry.path);
                let unknown = eligibility::unknown_ancestors(parts, self.state().known);
                &&& inspection.skip == (!entry.regular || self.changed().contains(parts))
                &&& !inspection.skip ==> {
                    &&& inspection.ancestors@.len() == unknown.len()
                    &&& forall|i: int|
                        0 <= i < unknown.len() ==> (#[trigger] inspection.ancestors@[i])@
                            == paths::relative_text(unknown[i])
                    &&& inspection.donors@.len() == self.inventories().len()
                    &&& forall|k: int|
                        0 <= k < self.inventories().len() ==> {
                            let above = #[trigger] inspection.donors@[k];
                            let missing = eligibility::unknown_ancestors(
                                parts,
                                self.state().known_in[k],
                            );
                            &&& above is Some <==> self.inventories()[k].offers(
                                entry.path,
                                entry.oid,
                            )
                            &&& above matches Some(list) ==> list@.len() == missing.len()
                                && forall|i: int|
                                0 <= i < missing.len() ==> (#[trigger] list@[i])@
                                    == paths::relative_text(missing[i])
                        }
                }
            }),
    {
        let entry = &self.entries[self.next];
        let path = entry.path.as_slice();
        assert(self.entries()[self.next()] == entry@);
        if !entry.regular || self.changed.contains(path) {
            return Inspection { skip: true, ancestors: Vec::new(), donors: Vec::new() };
        }
        let ancestors = eligibility::ancestors_to_check(path, &self.known);
        let mut donors: Vec<Option<Vec<Vec<u8>>>> = Vec::new();
        let ghost parts = paths::components(path@);
        for k in 0..self.inventories.len()
            invariant
                self.wf(),
                self.next() < self.entries().len(),
                entry@ == self.entries()[self.next()],
                path@ == entry.path@,
                parts == paths::components(path@),
                paths::is_safe_relative(path@),
                donors@.len() == k,
                forall|j: int|
                    0 <= j < k ==> {
                        let above = #[trigger] donors@[j];
                        let missing = eligibility::unknown_ancestors(
                            parts,
                            self.state().known_in[j],
                        );
                        &&& above is Some <==> self.inventories()[j].offers(
                            entry@.path,
                            entry@.oid,
                        )
                        &&& above matches Some(list) ==> list@.len() == missing.len() && forall|i: int|
                            0 <= i < missing.len() ==> (#[trigger] list@[i])@
                                == paths::relative_text(missing[i])
                    },
        {
            let above = if self.inventories[k].holds(path, entry.oid.as_str()) {
                assert(self.state().known_in[k as int] == self.known_in@[k as int]@.dom());
                Some(eligibility::ancestors_to_check(path, &self.known_in[k]))
            } else {
                None
            };
            donors.push(above);
        }
        Inspection { skip: false, ancestors, donors }
    }

    /// Plans the next entry from what looking at it found.
    pub fn settle(&mut self, seen: &Seen) -> (result: Result<(), Error>)
        requires
            old(self).wf(),
            old(self).next() < old(self).entries().len(),
        ensures
            ({
                let next = plan_entry(
                    old(self).state(),
                    old(self).inventories(),
                    old(self).changed(),
                    old(self).entries()[old(self).next()],
                    seen@,
                );
                &&& result is Ok <==> next is Ok
                &&& final(self).wf()
                &&& final(self).entries() == old(self).entries()
                &&& final(self).changed() == old(self).changed()
                &&& final(self).inventories() == old(self).inventories()
                &&& result is Ok ==> {
                    &&& final(self).state() == next->Ok_0
                    &&& final(self).next() == old(self).next() + 1
                }
                &&& result matches Err(error) ==> {
                    &&& next == Err::<Planned, Failure>(error@)
                    &&& final(self).next() == old(self).next()
                    &&& final(self).state() == (Planned {
                        known: final(self).state().known,
                        ..old(self).state()
                    })
                }
            }),
    {
        let ghost before = self.state();
        let ghost entry = self.entries()[self.next()];
        let at: usize = self.next;
        let total: usize = self.entries.len();
        assert(at < total);
        let path = bytes::copy(self.entries[at].path.as_slice());
        let oid = self.entries[at].oid.as_str().to_owned();
        let regular = self.entries[at].regular;
        assert(entry == self.entries@[at as int]@);
        if !regular || self.changed.contains(path.as_slice()) {
            self.excluded.push(path);
            self.next = at + 1;
            proof {
                assert(bytes::views(self.excluded@) =~= before.excluded.push(entry.path));
            }
            return Ok(());
        }
        eligibility::validate_ancestors(path.as_slice(), &seen.ancestors, &mut self.known)?;
        let file = match seen.file {
            Some(file) => file,
            None => {
                self.excluded.push(path);
                self.next = at + 1;
                proof {
                    assert(bytes::views(self.excluded@) =~= before.excluded.push(entry.path));
                }
                return Ok(());
            },
        };
        if !file.regular {
            self.excluded.push(path);
            self.next = at + 1;
            proof {
                assert(bytes::views(self.excluded@) =~= before.excluded.push(entry.path));
            }
            return Ok(());
        }
        let found = self.match_donors(path.as_slice(), oid.as_str(), seen);
        if found.len() == 0 {
            self.excluded.push(path);
            self.next = at + 1;
            proof {
                assert(bytes::views(self.excluded@) =~= before.excluded.push(entry.path));
                assert(donors::numbers(found@) =~= Seq::<int>::empty());
            }
            return Ok(());
        }
        self.logical = self.logical.saturating_add(file.size);
        let bytes: u64 = if file.blocks <= 0xffff_ffff_ffff_ffff / 512 {
            file.blocks * 512
        } else {
            0xffff_ffff_ffff_ffff
        };
        self.allocated = self.allocated.saturating_add(bytes);
        let job = CloneJob { path, oid, donors: found };
        let ghost j = job@;
        self.jobs.push(job);
        self.next = at + 1;
        proof {
            assert(jobs_view(self.jobs@) =~= before.jobs.push(j));
        }
        Ok(())
    }

    /// The donors that hold an object in directories that are directories.
    fn match_donors(&mut self, path: &[u8], oid: &str, seen: &Seen) -> (found: Vec<usize>)
        requires
            old(self).wf(),
            paths::is_safe_relative(path@),
        ensures
            final(self).wf(),
            final(self).entries == old(self).entries,
            final(self).next == old(self).next,
            final(self).changed == old(self).changed,
            final(self).inventories == old(self).inventories,
            final(self).known == old(self).known,
            final(self).jobs == old(self).jobs,
            final(self).excluded == old(self).excluded,
            final(self).logical == old(self).logical,
            final(self).allocated == old(self).allocated,
            forall|entry: git::Entry|
                #![trigger matching(old(self).inventories@, entry, seen@, known_sets(old(self).known_in@), old(self).inventories@.len() as int)]
                entry.path == path@ && entry.oid == oid@ ==> matching(
                    old(self).inventories@,
                    entry,
                    seen@,
                    known_sets(old(self).known_in@),
                    old(self).inventories@.len() as int,
                ) == (donors::numbers(found@), known_sets(final(self).known_in@)),
    {
        let ghost start = *self;
        let ghost sets = known_sets(self.known_in@);
        let ghost look = seen@;
        let ghost parts = paths::components(path@);
        let ghost entry = git::Entry {
            path: path@,
            oid: oid@,
            executable: false,
            regular: true,
            gitlink: false,
            tree: false,
        };
        let mut found: Vec<usize> = Vec::new();
        let nothing: Vec<bool> = Vec::new();
        assert(donors::numbers(found@) =~= Seq::<int>::empty());
        let count: usize = self.inventories.len();
        for k in 0..count
            invariant
                count == start.inventories@.len(),
                start == *old(self),
                start.wf(),
                self.wf(),
                self.entries == start.entries,
                self.next == start.next,
                self.changed == start.changed,
                self.inventories == start.inventories,
                self.known == start.known,
                self.jobs == start.jobs,
                self.excluded == start.excluded,
                self.logical == start.logical,
                self.allocated == start.allocated,
                sets == known_sets(start.known_in@),
                look == seen@,
                nothing@.len() == 0,
                parts == paths::components(path@),
                paths::is_safe_relative(path@),
                entry.path == path@,
                entry.oid == oid@,
                self.known_in@.len() == start.known_in@.len(),
                forall|j: int|
                    k <= j < self.known_in@.len() ==> #[trigger] self.known_in@[j]
                        == start.known_in@[j],
                matching(start.inventories@, entry, look, sets, k as int) == (
                    donors::numbers(found@),
                    known_sets(self.known_in@),
                ),
        {
            if self.inventories[k].holds(path, oid) {
                let ghost known = self.known_in@;
                let ghost unknown = eligibility::unknown_ancestors(parts, sets[k as int]);
                let above = if k < seen.donors.len() {
                    &seen.donors[k]
                } else {
                    &nothing
                };
                proof {
                    assert(sets[k as int] == self.known_in@[k as int]@.dom());
                    if k >= seen.donors@.len() {
                        assert(above@ =~= look.donor(k as int));
                    } else {
                        assert(above@ == look.donor(k as int));
                    }
                }
                let safe = eligibility::validate_ancestors(path, above, &mut self.known_in[k]);
                proof {
                    let after = eligibility::known_after(
                        sets[k as int],
                        unknown,
                        eligibility::confirmed(unknown.len() as int, look.donor(k as int)),
                    );
                    assert(known_sets(self.known_in@) =~= known_sets(known).update(k as int, after));
                }
                if safe.is_ok() {
                    let ghost before = donors::numbers(found@);
                    let donor = self.inventories[k].donor_position();
                    found.push(donor);
                    assert(donors::numbers(found@) =~= before.push(donor as int));
                }
            }
        }
        proof {
            assert forall|e: git::Entry| e.path == path@ && e.oid == oid@ implies #[trigger] matching(
                start.inventories@,
                e,
                seen@,
                known_sets(start.known_in@),
                start.inventories@.len() as int,
            ) == (donors::numbers(found@), known_sets(self.known_in@)) by {
                lemma_matching_by_object(
                    start.inventories@,
                    e,
                    entry,
                    seen@,
                    known_sets(start.known_in@),
                    start.inventories@.len() as int,
                );
            }
        }
        found
    }

    /// The finished plan.
    pub fn finish(self) -> (plan: Plan)
        requires
            self.wf(),
            self.next() == self.entries().len(),
        ensures
            jobs_view(plan.jobs@) == self.state().jobs,
            plan.logical_bytes == self.state().logical,
            plan.allocated_bytes == self.state().allocated,
            plan.excluded_count == self.state().excluded.len(),
            plan.excluded_hash@ == "sha256:"@ + digest::hex(
                digest::sha256(excluded_record(self.state().excluded)),
            ),
    {
        let record = sorted_record(&self.excluded);
        let hash = digest::sha256_digest(record.as_slice());
        Plan {
            jobs: self.jobs,
            logical_bytes: self.logical,
            allocated_bytes: self.allocated,
            excluded_count: self.excluded.len(),
            excluded_hash: digest::digest_label(hash.as_slice()),
        }
    }
}

proof fn lemma_matching_by_object(
    inventories: Seq<Inventory>,
    a: git::Entry,
    b: git::Entry,
    look: Look,
    known_in: Seq<Set<Seq<Seq<u8>>>>,
    n: int,
)
    requires
        a.path == b.path,
        a.oid == b.oid,
    ensures
        matching(inventories, a, look, known_in, n) == matching(
            inventories,
            b,
            look,
            known_in,
            n,
        ),
    decreases n,
{
    if n > 0 {
        lemma_matching_by_object(inventories, a, b, look, known_in, n - 1);
    }
}

/// The paths in path order, each followed by NUL.
pub fn sorted_record(paths: &Vec<Vec<u8>>) -> (record: Vec<u8>)
    ensures
        record@ == excluded_record(bytes::views(paths@)),
{
    let ghost all = bytes::views(paths@);
    let ghost wanted = Seq::new(all.len(), |i: int| paths::components(all[i]));
    let mut keys: Vec<Vec<Vec<u8>>> = Vec::new();
    for i in 0..paths.len()
        invariant
            all == bytes::views(paths@),
            wanted == Seq::new(all.len(), |i: int| paths::components(all[i])),
            order::key_views(keys@) == wanted.take(i as int),
    {
        let key = paths::split_path(paths[i].as_slice());
        let ghost before = order::key_views(keys@);
        let ghost k = bytes::views(key@);
        keys.push(key);
        assert(order::key_views(keys@) =~= before.push(k));
        assert(wanted.take(i + 1) =~= before.push(k));
    }
    assert(wanted.take(wanted.len() as int) =~= wanted);
    let sorted = order::stable_order(&keys);
    let ghost listed = Seq::new(sorted@.len(), |i: int| all[sorted@[i] as int]);
    let mut record: Vec<u8> = Vec::new();
    assert(listed.take(0) =~= Seq::<Seq<u8>>::empty());
    for i in 0..sorted.len()
        invariant
            all == bytes::views(paths@),
            sorted@.len() == paths@.len(),
            forall|k: int| 0 <= k < sorted@.len() ==> 0 <= #[trigger] sorted@[k] < paths@.len(),
            listed == Seq::new(sorted@.len(), |i: int| all[sorted@[i] as int]),
            record@ == bytes::terminate(listed.take(i as int), 0),
    {
        assert(listed.take(i + 1).drop_last() =~= listed.take(i as int));
        let path = paths[sorted[i]].as_slice();
        assert(listed.take(i + 1).last() == path@);
        bytes::append(&mut record, path);
        record.push(0);
    }
    assert(listed.take(listed.len() as int) =~= listed);
    record
}

/// There is a job for the entry.
pub open spec fn has_job(jobs: Seq<Job>, entry: git::Entry) -> bool {
    exists|j: int|
        0 <= j < jobs.len() && (#[trigger] jobs[j]).path == entry.path && jobs[j].oid == entry.oid
}

/// Every entry is either to be cloned or excluded, and there is nothing else
/// to be cloned or excluded.
pub proof fn every_entry_is_planned(
    inventories: Seq<Inventory>,
    changed: Set<Seq<Seq<u8>>>,
    entries: Seq<git::Entry>,
    looks: Seq<Look>,
)
    ensures
        ({
            let result = planned(
                nothing_planned(inventories.len()),
                inventories,
                changed,
                entries,
                looks,
            );
            result matches Ok(state) ==> {
                &&& state.jobs.len() + state.excluded.len() == entries.len()
                &&& forall|e: int|
                    0 <= e < entries.len() ==> has_job(state.jobs, #[trigger] entries[e])
                        || state.excluded.contains(entries[e].path)
            }
        }),
    decreases entries.len(),
{
    if entries.len() > 0 {
        let init = entries.drop_last();
        every_entry_is_planned(inventories, changed, init, looks);
        let start = nothing_planned(inventories.len());
        if let Ok(before) = planned(start, inventories, changed, init, looks) {
            if let Ok(state) = planned(start, inventories, changed, entries, looks) {
                assert forall|e: int| 0 <= e < entries.len() implies has_job(
                    state.jobs,
                    #[trigger] entries[e],
                ) || state.excluded.contains(entries[e].path) by {
                    if e < init.len() {
                        assert(init[e] == entries[e]);
                        if has_job(before.jobs, init[e]) {
                            let j = choose|j: int|
                                0 <= j < before.jobs.len() && (#[trigger] before.jobs[j]).path
                                    == init[e].path && before.jobs[j].oid == init[e].oid;
                            assert(state.jobs[j] == before.jobs[j]);
                        } else {
                            let k = choose|k: int|
                                0 <= k < before.excluded.len() && before.excluded[k]
                                    == init[e].path;
                            assert(state.excluded[k] == before.excluded[k]);
                        }
                    } else if state.excluded.len() > before.excluded.len() {
                        assert(state.excluded[before.excluded.len() as int] == entries[e].path);
                    } else {
                        assert(state.jobs[before.jobs.len() as int].path == entries[e].path);
                    }
                }
            }
        }
    }
}

/// A donor holds an object as a regular file at a path.
pub open spec fn offered(inventories: Seq<Inventory>, donor: int, path: Seq<u8>, oid: Seq<char>) -> bool {
    exists|k: int|
        0 <= k < inventories.len() && (#[trigger] inventories[k]).donor() as int == donor
            && inventories[k].offers(path, oid)
}

/// A job is for a regular file of the tree that Git does not report as changed,
/// and each of its donors holds the same object at the same path.
pub open spec fn is_sound_job(
    inventories: Seq<Inventory>,
    changed: Set<Seq<Seq<u8>>>,
    entries: Seq<git::Entry>,
    job: Job,
) -> bool {
    &&& exists|e: int|
        0 <= e < entries.len() && (#[trigger] entries[e]).path == job.path && entries[e].oid
            == job.oid && entries[e].regular
    &&& !changed.contains(paths::components(job.path))
    &&& job.donors.len() > 0
    &&& forall|d: int|
        0 <= d < job.donors.len() ==> offered(
            inventories,
            #[trigger] job.donors[d],
            job.path,
            job.oid,
        )
}

proof fn lemma_matching_offers(
    inventories: Seq<Inventory>,
    entry: git::Entry,
    look: Look,
    known_in: Seq<Set<Seq<Seq<u8>>>>,
    n: int,
)
    requires
        n <= inventories.len(),
    ensures
        ({
            let found = matching(inventories, entry, look, known_in, n).0;
            forall|d: int|
                0 <= d < found.len() ==> offered(
                    inventories,
                    #[trigger] found[d],
                    entry.path,
                    entry.oid,
                )
        }),
    decreases n,
{
    if n > 0 {
        lemma_matching_offers(inventories, entry, look, known_in, n - 1);
        let before = matching(inventories, entry, look, known_in, n - 1).0;
        let found = matching(inventories, entry, look, known_in, n).0;
        assert forall|d: int| 0 <= d < found.len() implies offered(
            inventories,
            #[trigger] found[d],
            entry.path,
            entry.oid,
        ) by {
            if d < before.len() {
                assert(found[d] == before[d]);
            } else {
                assert(inventories[n - 1].donor() as int == found[d]);
            }
        }
    }
}

/// Only unchanged regular files are to be replaced, and only by clones of the
/// same object at the same path of a donor.
pub proof fn jobs_are_sound(
    inventories: Seq<Inventory>,
    changed: Set<Seq<Seq<u8>>>,
    entries: Seq<git::Entry>,
    looks: Seq<Look>,
)
    ensures
        ({
            let result = planned(
                nothing_planned(inventories.len()),
                inventories,
                changed,
                entries,
                looks,
            );
            result matches Ok(state) ==> forall|j: int|
                0 <= j < state.jobs.len() ==> is_sound_job(
                    inventories,
                    changed,
                    entries,
                    #[trigger] state.jobs[j],
                )
        }),
    decreases entries.len(),
{
    let start = nothing_planned(inventories.len());
    if entries.len() > 0 {
        let init = entries.drop_last();
        jobs_are_sound(inventories, changed, init, looks);
        let last = entries[entries.len() - 1];
        if let Ok(before) = planned(start, inventories, changed, init, looks) {
            if let Ok(state) = planned(start, inventories, changed, entries, looks) {
                lemma_matching_offers(
                    inventories,
                    last,
                    looks[entries.len() - 1],
                    before.known_in,
                    inventories.len() as int,
                );
                assert forall|j: int| 0 <= j < state.jobs.len() implies is_sound_job(
                    inventories,
                    changed,
                    entries,
                    #[trigger] state.jobs[j],
                ) by {
                    let job = state.jobs[j];
                    if j < before.jobs.len() {
                        assert(job == before.jobs[j]);
                        let e = choose|e: int|
                            0 <= e < init.len() && (#[trigger] init[e]).path == job.path
                                && init[e].oid == job.oid && init[e].regular;
                        assert(entries[e] == init[e]);
                    } else {
                        assert(entries[entries.len() - 1].path == job.path);
                    }
                }
            }
        }
    }
}

/// Where the inventories stand in the order in which their donors are tried,
/// every job tries its donors in that order.
pub proof fn jobs_are_in_turn(
    inventories: Seq<Inventory>,
    changed: Set<Seq<Seq<u8>>>,
    entries: Seq<git::Entry>,
    looks: Seq<Look>,
    worktrees: Seq<Registered>,
    commit: Seq<char>,
)
    requires
        donors::in_turn(worktrees, commit, donors::donors_of(inventories)),
    ensures
        ({
            let result = planned(
                nothing_planned(inventories.len()),
                inventories,
                changed,
                entries,
                looks,
            );
            result matches Ok(state) ==> forall|j: int|
                0 <= j < state.jobs.len() ==> donors::in_turn(
                    worktrees,
                    commit,
                    (#[trigger] state.jobs[j]).donors,
                )
        }),
    decreases entries.len(),
{
    let start = nothing_planned(inventories.len());
    if entries.len() > 0 {
        let init = entries.drop_last();
        jobs_are_in_turn(inventories, changed, init, looks, worktrees, commit);
        if let Ok(before) = planned(start, inventories, changed, init, looks) {
            if let Ok(state) = planned(start, inventories, changed, entries, looks) {
                matches_are_in_turn(
                    inventories,
                    entries.last(),
                    looks[entries.len() - 1],
                    before.known_in,
                    worktrees,
                    commit,
                );
                assert forall|j: int| 0 <= j < state.jobs.len() implies donors::in_turn(
                    worktrees,
                    commit,
                    (#[trigger] state.jobs[j]).donors,
                ) by {
                    if j < before.jobs.len() {
                        assert(state.jobs[j] == before.jobs[j]);
                    }
                }
            }
        }
    }
}

/// An entry may be planned at all: a regular file that Git does not report as
/// changed.
pub open spec fn is_candidate(entry: git::Entry, changed: Set<Seq<Seq<u8>>>) -> bool {
    entry.regular && !changed.contains(paths::components(entry.path))
}

/// The inventories whose donors have a candidate's object at its path, below
/// directories.
pub open spec fn has_twin(
    inventories: Seq<Inventory>,
    entry: git::Entry,
    donor_dirs: spec_fn(int, Seq<Seq<u8>>) -> bool,
) -> spec_fn(int) -> bool {
    |k: int|
        inventories[k].offers(entry.path, entry.oid) && eligibility::is_real(
            paths::components(entry.path),
            |p: Seq<Seq<u8>>| donor_dirs(k, p),
        )
}

/// A candidate below something that is no directory.
pub open spec fn is_blocked(
    entry: git::Entry,
    changed: Set<Seq<Seq<u8>>>,
    dirs: spec_fn(Seq<Seq<u8>>) -> bool,
) -> bool {
    is_candidate(entry, changed) && !eligibility::is_real(paths::components(entry.path), dirs)
}

/// The entries that are to be cloned: candidates that are regular files in the
/// worktree and that a donor has.
pub open spec fn is_eligible(
    inventories: Seq<Inventory>,
    changed: Set<Seq<Seq<u8>>>,
    entries: Seq<git::Entry>,
    looks: Seq<Look>,
    donor_dirs: spec_fn(int, Seq<Seq<u8>>) -> bool,
) -> spec_fn(int) -> bool {
    |e: int|
        is_candidate(entries[e], changed) && (looks[e].file matches Some(file) && file.regular)
            && worktree::positions(
            inventories.len() as int,
            has_twin(inventories, entries[e], donor_dirs),
        ).len() > 0
}

pub open spec fn is_not(test: spec_fn(int) -> bool) -> spec_fn(int) -> bool {
    |e: int| !test(e)
}

/// What was found when an entry was looked at is true.
pub open spec fn is_true_look(
    state: Planned,
    inventories: Seq<Inventory>,
    entry: git::Entry,
    look: Look,
    dirs: spec_fn(Seq<Seq<u8>>) -> bool,
    donor_dirs: spec_fn(int, Seq<Seq<u8>>) -> bool,
) -> bool {
    let parts = paths::components(entry.path);
    &&& eligibility::found_truly(
        eligibility::unknown_ancestors(parts, state.known),
        look.ancestors,
        dirs,
    )
    &&& forall|k: int|
        0 <= k < inventories.len() && (#[trigger] inventories[k]).offers(entry.path, entry.oid)
            ==> eligibility::found_truly(
            eligibility::unknown_ancestors(parts, state.known_in[k]),
            look.donor(k),
            |p: Seq<Seq<u8>>| donor_dirs(k, p),
        )
}

/// Every candidate was looked at truly when its turn came.
pub open spec fn looks_are_true(
    inventories: Seq<Inventory>,
    changed: Set<Seq<Seq<u8>>>,
    entries: Seq<git::Entry>,
    looks: Seq<Look>,
    dirs: spec_fn(Seq<Seq<u8>>) -> bool,
    donor_dirs: spec_fn(int, Seq<Seq<u8>>) -> bool,
) -> bool {
    forall|e: int|
        0 <= e < entries.len() && is_candidate(#[trigger] entries[e], changed) ==> {
            planned(
                nothing_planned(inventories.len()),
                inventories,
                changed,
                entries.take(e),
                looks,
            ) matches Ok(state) ==> is_true_look(
                state,
                inventories,
                entries[e],
                looks[e],
                dirs,
                donor_dirs,
            )
        }
}

/// The sum of some numbers.
pub open spec fn total(numbers: Seq<int>) -> int
    decreases numbers.len(),
{
    if numbers.len() == 0 {
        0
    } else {
        total(numbers.drop_last()) + numbers.last()
    }
}

/// A number that 64 bits hold, or the greatest that they hold.
pub open spec fn is_capped(shown: u64, number: int) -> bool {
    if number <= 0xffff_ffff_ffff_ffff {
        shown == number
    } else {
        shown == 0xffff_ffff_ffff_ffff
    }
}

/// The sizes of the files at these positions.
pub open spec fn sizes_at(looks: Seq<Look>, at: Seq<int>) -> Seq<int> {
    Seq::new(at.len(), |j: int| looks[at[j]].file->0.size as int)
}

/// The bytes of the blocks of the files at these positions.
pub open spec fn block_bytes_at(looks: Seq<Look>, at: Seq<int>) -> Seq<int> {
    Seq::new(at.len(), |j: int| 512 * looks[at[j]].file->0.blocks)
}

/// The jobs for the entries at these positions.
pub open spec fn jobs_at(
    inventories: Seq<Inventory>,
    entries: Seq<git::Entry>,
    donor_dirs: spec_fn(int, Seq<Seq<u8>>) -> bool,
    at: Seq<int>,
) -> Seq<Job> {
    Seq::new(
        at.len(),
        |j: int|
            Job {
                path: entries[at[j]].path,
                oid: entries[at[j]].oid,
                donors: donors::donors_at(
                    inventories,
                    worktree::positions(
                        inventories.len() as int,
                        has_twin(inventories, entries[at[j]], donor_dirs),
                    ),
                ),
            },
    )
}

/// The paths of the entries at these positions.
pub open spec fn paths_at(entries: Seq<git::Entry>, at: Seq<int>) -> Seq<Seq<u8>> {
    Seq::new(at.len(), |j: int| entries[at[j]].path)
}

proof fn lemma_same_positions(n: int, a: spec_fn(int) -> bool, b: spec_fn(int) -> bool)
    requires
        forall|k: int| 0 <= k < n ==> (#[trigger] a(k) == b(k)),
    ensures
        worktree::positions(n, a) == worktree::positions(n, b),
    decreases n,
{
    if n > 0 {
        lemma_same_positions(n - 1, a, b);
        assert(a(n - 1) == b(n - 1));
    }
}

proof fn lemma_matching_known(
    inventories: Seq<Inventory>,
    entry: git::Entry,
    look: Look,
    known_in: Seq<Set<Seq<Seq<u8>>>>,
    n: int,
    k: int,
)
    requires
        0 <= n <= known_in.len(),
        0 <= k < known_in.len(),
    ensures
        matching(inventories, entry, look, known_in, n).1.len() == known_in.len(),
        ({
            let parts = paths::components(entry.path);
            let asked = eligibility::unknown_ancestors(parts, known_in[k]);
            matching(inventories, entry, look, known_in, n).1[k] == (if k < n
                && inventories[k].offers(entry.path, entry.oid) {
                eligibility::known_after(
                    known_in[k],
                    asked,
                    eligibility::confirmed(asked.len() as int, look.donor(k)),
                )
            } else {
                known_in[k]
            })
        }),
    decreases n,
{
    if n > 0 {
        lemma_matching_known(inventories, entry, look, known_in, n - 1, k);
    }
}

/// Only directories are known, in the target and in each donor.
pub open spec fn knows_only_directories(
    state: Planned,
    inventories: Seq<Inventory>,
    dirs: spec_fn(Seq<Seq<u8>>) -> bool,
    donor_dirs: spec_fn(int, Seq<Seq<u8>>) -> bool,
) -> bool {
    &&& state.known_in.len() == inventories.len()
    &&& eligibility::knows_only(state.known, dirs)
    &&& forall|k: int|
        0 <= k < inventories.len() ==> eligibility::knows_only(
            #[trigger] state.known_in[k],
            |p: Seq<Seq<u8>>| donor_dirs(k, p),
        )
}

/// Planning one entry that was looked at truly.
proof fn lemma_true_entry(
    state: Planned,
    inventories: Seq<Inventory>,
    changed: Set<Seq<Seq<u8>>>,
    entry: git::Entry,
    look: Look,
    dirs: spec_fn(Seq<Seq<u8>>) -> bool,
    donor_dirs: spec_fn(int, Seq<Seq<u8>>) -> bool,
)
    requires
        knows_only_directories(state, inventories, dirs, donor_dirs),
        is_candidate(entry, changed) ==> is_true_look(
            state,
            inventories,
            entry,
            look,
            dirs,
            donor_dirs,
        ),
    ensures
        ({
            let twins = worktree::positions(
                inventories.len() as int,
                has_twin(inventories, entry, donor_dirs),
            );
            match plan_entry(state, inventories, changed, entry, look) {
                Err(failure) => is_blocked(entry, changed, dirs) && failure == Failure::UnsafePath(
                    entry.path,
                ),
                Ok(next) => {
                    &&& !is_blocked(entry, changed, dirs)
                    &&& knows_only_directories(next, inventories, dirs, donor_dirs)
                    &&& if is_candidate(entry, changed) && (look.file matches Some(file)
                        && file.regular) && twins.len() > 0 {
                        &&& next.jobs == state.jobs.push(
                            Job {
                                path: entry.path,
                                oid: entry.oid,
                                donors: donors::donors_at(inventories, twins),
                            },
                        )
                        &&& next.excluded == state.excluded
                        &&& is_capped(next.logical, state.logical + look.file->0.size)
                        &&& is_capped(next.allocated, state.allocated + 512 * look.file->0.blocks)
                    } else {
                        &&& next.jobs == state.jobs
                        &&& next.excluded == state.excluded.push(entry.path)
                        &&& next.logical == state.logical
                        &&& next.allocated == state.allocated
                    }
                },
            }
        }),
{
    let parts = paths::components(entry.path);
    let n = inventories.len() as int;
    if is_candidate(entry, changed) {
        eligibility::asking_tells_real_directories(parts, state.known, look.ancestors, dirs);
        let test = is_match(inventories, entry, look, state.known_in);
        let twin = has_twin(inventories, entry, donor_dirs);
        let (found, known_in) = matching(inventories, entry, look, state.known_in, n);
        matches_keep_inventory_order(inventories, entry, look, state.known_in, n);
        assert forall|k: int| 0 <= k < n implies (#[trigger] test(k) == twin(k)) && {
            &&& known_in.len() == state.known_in.len()
            &&& eligibility::knows_only(known_in[k], |p: Seq<Seq<u8>>| donor_dirs(k, p))
        } by {
            let there = |p: Seq<Seq<u8>>| donor_dirs(k, p);
            lemma_matching_known(inventories, entry, look, state.known_in, n, k);
            assert(eligibility::knows_only(state.known_in[k], there));
            if inventories[k].offers(entry.path, entry.oid) {
                eligibility::asking_tells_real_directories(
                    parts,
                    state.known_in[k],
                    look.donor(k),
                    there,
                );
            }
        }
        lemma_same_positions(n, test, twin);
        if n > 0 {
            assert(test(0) == twin(0));
        } else {
            assert(found =~= Seq::<int>::empty());
        }
        if look.file matches Some(file) && file.regular {
            match plan_entry(state, inventories, changed, entry, look) {
                Ok(next) => {
                    assert(next.known_in == known_in);
                    assert forall|k: int| 0 <= k < n implies eligibility::knows_only(
                        #[trigger] next.known_in[k],
                        |p: Seq<Seq<u8>>| donor_dirs(k, p),
                    ) by {
                        assert(test(k) == twin(k));
                    }
                },
                Err(_) => {},
            }
        }
        assert(found.len() == worktree::positions(n, twin).len());
    }
}

/// Where the directories that were looked at were found truly, the plan is
/// exactly this. It fails with the first unchanged regular file below something
/// that is no directory. Otherwise there is a job for each unchanged regular
/// file of the tree, executable or not, that is a regular file in the worktree
/// and that a donor offers at the same path below directories, with just these
/// donors in order; every other entry is excluded; and the bytes are the sums
/// over the files of all jobs, as far as 64 bits hold them.
pub proof fn plan_is_exact(
    inventories: Seq<Inventory>,
    changed: Set<Seq<Seq<u8>>>,
    entries: Seq<git::Entry>,
    looks: Seq<Look>,
    dirs: spec_fn(Seq<Seq<u8>>) -> bool,
    donor_dirs: spec_fn(int, Seq<Seq<u8>>) -> bool,
)
    requires
        looks_are_true(inventories, changed, entries, looks, dirs, donor_dirs),
    ensures
        ({
            let test = is_eligible(inventories, changed, entries, looks, donor_dirs);
            let at = worktree::positions(entries.len() as int, test);
            let off = worktree::positions(entries.len() as int, is_not(test));
            match planned(
                nothing_planned(inventories.len()),
                inventories,
                changed,
                entries,
                looks,
            ) {
                Err(failure) => exists|e: int|
                    0 <= e < entries.len() && is_blocked(#[trigger] entries[e], changed, dirs)
                        && failure == Failure::UnsafePath(entries[e].path) && forall|j: int|
                        0 <= j < e ==> !is_blocked(#[trigger] entries[j], changed, dirs),
                Ok(state) => {
                    &&& forall|e: int|
                        0 <= e < entries.len() ==> !is_blocked(#[trigger] entries[e], changed, dirs)
                    &&& state.jobs == jobs_at(inventories, entries, donor_dirs, at)
                    &&& state.excluded == paths_at(entries, off)
                    &&& is_capped(state.logical, total(sizes_at(looks, at)))
                    &&& is_capped(state.allocated, total(block_bytes_at(looks, at)))
                    &&& knows_only_directories(state, inventories, dirs, donor_dirs)
                },
            }
        }),
    decreases entries.len(),
{
    let start = nothing_planned(inventories.len());
    let test = is_eligible(inventories, changed, entries, looks, donor_dirs);
    let at = worktree::positions(entries.len() as int, test);
    let off = worktree::positions(entries.len() as int, is_not(test));
    if entries.len() == 0 {
        assert(jobs_at(inventories, entries, donor_dirs, at) =~= Seq::<Job>::empty());
        assert(paths_at(entries, off) =~= Seq::<Seq<u8>>::empty());
        assert(sizes_at(looks, at) =~= Seq::<int>::empty());
        assert(block_bytes_at(looks, at) =~= Seq::<int>::empty());
    } else {
        let init = entries.drop_last();
        let n = init.len() as int;
        let last = entries[n];
        assert(entries.last() == last);
        assert forall|e: int|
            0 <= e < init.len() && is_candidate(#[trigger] init[e], changed) implies {
            planned(start, inventories, changed, init.take(e), looks) matches Ok(state)
                ==> is_true_look(state, inventories, init[e], looks[e], dirs, donor_dirs)
        } by {
            assert(init[e] == entries[e]);
            assert(init.take(e) =~= entries.take(e));
        }
        plan_is_exact(inventories, changed, init, looks, dirs, donor_dirs);
        assert(entries.take(n) =~= init);
        let early = is_eligible(inventories, changed, init, looks, donor_dirs);
        assert forall|k: int| 0 <= k < n implies (#[trigger] early(k) == test(k)) by {
            assert(init[k] == entries[k]);
        }
        assert forall|k: int| 0 <= k < n implies (#[trigger] is_not(early)(k) == is_not(test)(
            k,
        )) by {
            assert(early(k) == test(k));
        }
        lemma_same_positions(n, early, test);
        lemma_same_positions(n, is_not(early), is_not(test));
        let at_before = worktree::positions(n, test);
        let off_before = worktree::positions(n, is_not(test));
        worktree::lemma_positions(n, test);
        worktree::lemma_positions(n, is_not(test));
        match planned(start, inventories, changed, init, looks) {
            Err(failure) => {
                let e = choose|e: int|
                    0 <= e < init.len() && is_blocked(#[trigger] init[e], changed, dirs) && failure
                        == Failure::UnsafePath(init[e].path) && forall|j: int|
                        0 <= j < e ==> !is_blocked(#[trigger] init[j], changed, dirs);
                assert(entries[e] == init[e]);
                assert forall|j: int| 0 <= j < e implies !is_blocked(
                    #[trigger] entries[j],
                    changed,
                    dirs,
                ) by {
                    assert(entries[j] == init[j]);
                }
            },
            Ok(before) => {
                assert(is_candidate(last, changed) ==> is_true_look(
                    before,
                    inventories,
                    last,
                    looks[n],
                    dirs,
                    donor_dirs,
                ));
                lemma_true_entry(
                    before,
                    inventories,
                    changed,
                    last,
                    looks[n],
                    dirs,
                    donor_dirs,
                );
                assert forall|j: int| 0 <= j < n implies !is_blocked(
                    #[trigger] entries[j],
                    changed,
                    dirs,
                ) by {
                    assert(entries[j] == init[j]);
                }
                let jobs = jobs_at(inventories, entries, donor_dirs, at_before);
                assert(jobs =~= jobs_at(inventories, init, donor_dirs, at_before)) by {
                    assert forall|j: int| 0 <= j < jobs.len() implies #[trigger] jobs[j] == jobs_at(
                        inventories,
                        init,
                        donor_dirs,
                        at_before,
                    )[j] by {
                        assert(init[at_before[j]] == entries[at_before[j]]);
                    }
                }
                assert(paths_at(entries, off_before) =~= paths_at(init, off_before)) by {
                    assert forall|j: int| 0 <= j < off_before.len() implies #[trigger] paths_at(
                        entries,
                        off_before,
                    )[j] == paths_at(init, off_before)[j] by {
                        assert(init[off_before[j]] == entries[off_before[j]]);
                    }
                }
                if let Ok(state) = planned(start, inventories, changed, entries, looks) {
                    lemma_total_grows(looks, at_before);
                    if test(n) {
                        assert(at == at_before.push(n));
                        assert(off == off_before);
                        assert(jobs_at(inventories, entries, donor_dirs, at) =~= jobs.push(
                            state.jobs.last(),
                        ));
                        assert(sizes_at(looks, at).drop_last() =~= sizes_at(looks, at_before));
                        assert(block_bytes_at(looks, at).drop_last() =~= block_bytes_at(
                            looks,
                            at_before,
                        ));
                    } else {
                        assert(is_not(test)(n));
                        assert(at == at_before);
                        assert(off == off_before.push(n));
                        assert(paths_at(entries, off) =~= paths_at(entries, off_before).push(
                            last.path,
                        ));
                    }
                }
            },
        }
    }
}

proof fn lemma_total_grows(looks: Seq<Look>, at: Seq<int>)
    ensures
        total(sizes_at(looks, at)) >= 0,
        total(block_bytes_at(looks, at)) >= 0,
    decreases at.len(),
{
    if at.len() > 0 {
        lemma_total_grows(looks, at.drop_last());
        assert(sizes_at(looks, at).drop_last() =~= sizes_at(looks, at.drop_last()));
        assert(block_bytes_at(looks, at).drop_last() =~= block_bytes_at(looks, at.drop_last()));
    }
}

/// An unchanged regular file of the tree has a job where it is a regular file
/// below directories in the worktree, and an inventory offers its object at its
/// path below directories.
pub proof fn eligible_files_have_jobs(
    inventories: Seq<Inventory>,
    changed: Set<Seq<Seq<u8>>>,
    entries: Seq<git::Entry>,
    looks: Seq<Look>,
    dirs: spec_fn(Seq<Seq<u8>>) -> bool,
    donor_dirs: spec_fn(int, Seq<Seq<u8>>) -> bool,
    state: Planned,
    e: int,
    k: int,
)
    requires
        looks_are_true(inventories, changed, entries, looks, dirs, donor_dirs),
        planned(nothing_planned(inventories.len()), inventories, changed, entries, looks) == Ok::<
            Planned,
            Failure,
        >(state),
        0 <= e < entries.len(),
        entries[e].regular,
        !changed.contains(paths::components(entries[e].path)),
        looks[e].file matches Some(file) && file.regular,
        0 <= k < inventories.len(),
        inventories[k].offers(entries[e].path, entries[e].oid),
        eligibility::is_real(
            paths::components(entries[e].path),
            |p: Seq<Seq<u8>>| donor_dirs(k, p),
        ),
    ensures
        exists|j: int|
            0 <= j < state.jobs.len() && (#[trigger] state.jobs[j]).path == entries[e].path
                && state.jobs[j].oid == entries[e].oid && state.jobs[j].donors.contains(
                inventories[k].donor() as int,
            ),
{
    plan_is_exact(inventories, changed, entries, looks, dirs, donor_dirs);
    let n = inventories.len() as int;
    let twin = has_twin(inventories, entries[e], donor_dirs);
    let twins = worktree::positions(n, twin);
    worktree::lemma_positions(n, twin);
    assert(twin(k));
    assert(twins.contains(k));
    let i = choose|i: int| 0 <= i < twins.len() && twins[i] == k;
    let test = is_eligible(inventories, changed, entries, looks, donor_dirs);
    assert(is_candidate(entries[e], changed));
    assert(twins.len() > 0);
    assert(test(e));
    let at = worktree::positions(entries.len() as int, test);
    worktree::lemma_positions(entries.len() as int, test);
    assert(at.contains(e));
    let j = choose|j: int| 0 <= j < at.len() && at[j] == e;
    let job = state.jobs[j];
    assert(job == jobs_at(inventories, entries, donor_dirs, at)[j]);
    assert(job.donors == donors::donors_at(inventories, twins));
    assert(job.donors[i] == inventories[k].donor());
}

/// Jobs are seen as they are.
pub proof fn jobs_are_seen_as_they_are(jobs: Seq<CloneJob>, i: int, d: int)
    requires
        0 <= i < jobs.len(),
    ensures
        jobs_view(jobs).len() == jobs.len(),
        jobs_view(jobs)[i].path == jobs[i].path@,
        jobs_view(jobs)[i].oid == jobs[i].oid@,
        jobs_view(jobs)[i].donors.len() == jobs[i].donors@.len(),
        0 <= d < jobs[i].donors@.len() ==> jobs_view(jobs)[i].donors[d] == jobs[i].donors@[d],
{
}

/// What is hashed of the excluded paths is their list in path order, each with
/// NUL behind it, and can be taken apart again.
pub proof fn excluded_paths_end_with_nul(excluded: Seq<Seq<u8>>)
    requires
        excluded.len() <= usize::MAX,
        forall|i: int| 0 <= i < excluded.len() ==> !(#[trigger] excluded[i]).contains(0u8),
        forall|i: int| 0 <= i < excluded.len() ==> (#[trigger] excluded[i]).len() > 0,
    ensures
        git::nul_records(excluded_record(excluded)) == in_path_order(excluded),
        in_path_order(excluded).to_multiset() == excluded.to_multiset(),
{
    path_order_rearranges(excluded);
    let list = in_path_order(excluded);
    assert forall|i: int| 0 <= i < list.len() implies !(#[trigger] list[i]).contains(0u8)
        && list[i].len() > 0 by {
        list.to_multiset_ensures();
        excluded.to_multiset_ensures();
        assert(list.contains(list[i]));
        assert(list.to_multiset().count(list[i]) > 0);
        assert(excluded.contains(list[i]));
    }
    git::listings_give_their_paths(list);
}

} // verus!
