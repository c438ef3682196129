//! Which files of a new worktree are cloned, and from where.
use crate::attributes::SafePaths;
use crate::bytes;
use crate::clones;
use crate::donors;
use crate::donors::Inventory;
use crate::error;
use crate::error::{Error, Failure};
use crate::git;
use crate::git::TreeEntry;
use crate::order;
use crate::ownership::{Seed, Seeded, Share};
use crate::ownership;
use crate::pathmap;
use crate::paths;
use crate::platform::{CloneOutcome, Identity};
use crate::replace;
use crate::text;
use crate::worktree;
use crate::worktree::{Registered, Worktree};
use vstd::prelude::*;
use vstd::string::*;

verus! {

/// The key that sources are ordered by: those at the wanted commit first, then
/// the worktree that the command was given in, then by path.
pub open spec fn source_key(source: Registered, commit: Seq<char>, cwd: Seq<u8>) -> Seq<Seq<u8>> {
    seq![donors::commit_part(source, commit), place_part(source, cwd)] + paths::components(
        source.path,
    )
}

/// A source holds the directory that the command was given in.
pub open spec fn is_here(source: Registered, cwd: Seq<u8>) -> bool {
    bytes::has_prefix(paths::components(cwd), paths::components(source.path))
}

/// The part of a key that puts the worktree of the command first.
pub open spec fn place_part(source: Registered, cwd: Seq<u8>) -> Seq<u8> {
    if is_here(source, cwd) {
        seq![0u8]
    } else {
        seq![1u8]
    }
}

/// Files can be cloned from the source at a position: it is not the target, and
/// was found valid.
pub open spec fn is_usable(
    sources: Seq<Registered>,
    target: Seq<u8>,
    answers: Seq<Result<(), Error>>,
) -> spec_fn(int) -> bool {
    |i: int|
        paths::components(sources[i].path) != paths::components(target) && i < answers.len()
            && answers[i] is Ok
}

/// The positions of the sources that files can be cloned from. `answers` is what
/// validating each of them against the target came to.
pub fn usable_sources(
    worktrees: &Vec<Worktree>,
    target: &[u8],
    answers: Vec<Result<(), Error>>,
) -> (list: Vec<usize>)
    ensures
        donors::numbers(list@) == worktree::positions(
            worktrees@.len() as int,
            is_usable(worktree::registered(worktrees@), target@, answers@),
        ),
        within(list@, worktrees@.len() as int),
{
    let ghost all = worktree::registered(worktrees@);
    let ghost test = is_usable(all, target@, answers@);
    let mut list: Vec<usize> = Vec::new();
    assert(donors::numbers(list@) =~= Seq::<int>::empty());
    for i in 0..worktrees.len()
        invariant
            all == worktree::registered(worktrees@),
            test == is_usable(all, target@, answers@),
            donors::numbers(list@) == worktree::positions(i as int, test),
            within(list@, i as int),
    {
        assert(all[i as int].path == worktrees@[i as int].path@);
        let valid = i < answers.len() && answers[i].is_ok();
        let usable = valid && !paths::same(worktrees[i].path.as_slice(), target);
        assert(usable == test(i as int));
        if usable {
            let ghost before = donors::numbers(list@);
            list.push(i);
            assert(donors::numbers(list@) =~= before.push(i as int));
        }
    }
    list
}

/// The sources at `positions`, ordered.
pub open spec fn ranked_sources(
    sources: Seq<Registered>,
    positions: Seq<int>,
    commit: Seq<char>,
    cwd: Seq<u8>,
) -> Seq<int> {
    let keys = Seq::new(positions.len(), |i: int| source_key(sources[positions[i]], commit, cwd));
    order::arranged(positions, order::sorted_order(keys))
}

/// One source is tried before another: the one at the wanted commit, or of two
/// that are alike in this the one that the command was given in, or of two that
/// are alike in both the one whose path comes first.
pub open spec fn goes_before(
    one: Registered,
    other: Registered,
    commit: Seq<char>,
    cwd: Seq<u8>,
) -> bool {
    ||| one.head == commit && other.head != commit
    ||| (one.head == commit) == (other.head == commit) && is_here(one, cwd) && !is_here(other, cwd)
    ||| (one.head == commit) == (other.head == commit) && is_here(one, cwd) == is_here(other, cwd)
        && !order::key_less(paths::components(other.path), paths::components(one.path))
}

/// Each of these sources is tried before those after it.
pub open spec fn in_turn(
    sources: Seq<Registered>,
    commit: Seq<char>,
    cwd: Seq<u8>,
    list: Seq<int>,
) -> bool {
    forall|a: int, b: int|
        0 <= a < b < list.len() ==> goes_before(
            sources[#[trigger] list[a]],
            sources[#[trigger] list[b]],
            commit,
            cwd,
        )
}

/// Ranking loses no source and adds none. Those at the wanted commit come
/// first, then the worktree that the command was given in, then the order is
/// that of the paths.
pub proof fn ranking_prefers_commit_then_place_then_path(
    sources: Seq<Registered>,
    positions: Seq<int>,
    commit: Seq<char>,
    cwd: Seq<u8>,
)
    requires
        positions.len() <= usize::MAX,
    ensures
        ranked_sources(sources, positions, commit, cwd).len() == positions.len(),
        ranked_sources(sources, positions, commit, cwd).to_multiset() == positions.to_multiset(),
        in_turn(sources, commit, cwd, ranked_sources(sources, positions, commit, cwd)),
{
    let keys = Seq::new(positions.len(), |i: int| source_key(sources[positions[i]], commit, cwd));
    let sorted = order::sorted_order(keys);
    let list = ranked_sources(sources, positions, commit, cwd);
    order::sorted_order_is_order(keys);
    order::order_rearranges(keys, keys.len() as int, sorted, positions);
    assert(positions.take(positions.len() as int) =~= positions);
    assert forall|a: int, b: int| 0 <= a < b < list.len() implies goes_before(
        sources[#[trigger] list[a]],
        sources[#[trigger] list[b]],
        commit,
        cwd,
    ) by {
        let one = sources[list[a]];
        let other = sources[list[b]];
        order::arranged_keys_ascend(keys, sorted, a, b);
        assert(order::arranged(keys, sorted)[a] == source_key(one, commit, cwd));
        assert(order::arranged(keys, sorted)[b] == source_key(other, commit, cwd));
        donors::lemma_flags();
        let x = seq![place_part(one, cwd)] + paths::components(one.path);
        let y = seq![place_part(other, cwd)] + paths::components(other.path);
        assert(source_key(one, commit, cwd) =~= seq![donors::commit_part(one, commit)] + x);
        assert(source_key(other, commit, cwd) =~= seq![donors::commit_part(other, commit)] + y);
        order::lemma_first_part(
            donors::commit_part(other, commit),
            y,
            donors::commit_part(one, commit),
            x,
        );
        order::lemma_first_part(
            place_part(other, cwd),
            paths::components(other.path),
            place_part(one, cwd),
            paths::components(one.path),
        );
    }
}

/// The sources at `positions` in the order in which they are tried.
pub fn rank_sources(
    sources: &Vec<Worktree>,
    positions: &Vec<usize>,
    commit: &str,
    cwd: &[u8],
) -> (result: Vec<usize>)
    requires
        within(positions@, sources@.len() as int),
    ensures
        donors::numbers(result@) == ranked_sources(
            worktree::registered(sources@),
            donors::numbers(positions@),
            commit@,
            cwd@,
        ),
        within(result@, sources@.len() as int),
        result@.len() == positions@.len(),
        donors::numbers(result@).to_multiset() == donors::numbers(positions@).to_multiset(),
        in_turn(worktree::registered(sources@), commit@, cwd@, donors::numbers(result@)),
{
    let ghost all = worktree::registered(sources@);
    let ghost at = donors::numbers(positions@);
    let ghost wanted = Seq::new(at.len(), |i: int| source_key(all[at[i]], commit@, cwd@));
    let mut keys: Vec<Vec<Vec<u8>>> = Vec::new();
    for i in 0..positions.len()
        invariant
            all == worktree::registered(sources@),
            at == donors::numbers(positions@),
            wanted == Seq::new(at.len(), |i: int| source_key(all[at[i]], commit@, cwd@)),
            within(positions@, sources@.len() as int),
            order::key_views(keys@) == wanted.take(i as int),
    {
        let source = &sources[positions[i]];
        assert(all[at[i as int]] == source@);
        let mut key: Vec<Vec<u8>> = Vec::new();
        key.push(donors::flag(!text::same(source.head.as_str(), commit)));
        key.push(donors::flag(!paths::lies_in(cwd, source.path.as_slice())));
        assert(bytes::views(key@) =~= seq![key@[0]@, key@[1]@]);
        donors::append_components(&mut key, source.path.as_slice());
        let ghost before = order::key_views(keys@);
        let ghost k = bytes::views(key@);
        keys.push(key);
        assert(order::key_views(keys@) =~= before.push(k));
        assert(k =~= wanted[i as int]);
        assert(wanted.take(i + 1) =~= before.push(k));
    }
    assert(wanted.take(wanted.len() as int) =~= wanted);
    let sorted = order::stable_order(&keys);
    let ghost listed = Seq::new(sorted@.len(), |i: int| at[sorted@[i] as int]);
    let mut result: Vec<usize> = Vec::new();
    for i in 0..sorted.len()
        invariant
            at == donors::numbers(positions@),
            sorted@.len() == positions@.len(),
            forall|k: int| 0 <= k < sorted@.len() ==> 0 <= #[trigger] sorted@[k] < positions@.len(),
            listed == Seq::new(sorted@.len(), |i: int| at[sorted@[i] as int]),
            within(positions@, sources@.len() as int),
            within(result@, sources@.len() as int),
            donors::numbers(result@) == listed.take(i as int),
    {
        let one: usize = positions[sorted[i]];
        let ghost before = donors::numbers(result@);
        result.push(one);
        assert(donors::numbers(result@) =~= before.push(one as int));
        assert(listed.take(i + 1) =~= before.push(one as int));
    }
    assert(listed.take(listed.len() as int) =~= listed);
    proof {
        assert(listed =~= ranked_sources(all, at, commit@, cwd@));
        assert(at.len() == positions.len());
        ranking_prefers_commit_then_place_then_path(all, at, commit@, cwd@);
    }
    result
}

/// The positions of `list` at which `test` holds of the position.
pub open spec fn select(list: Seq<int>, test: spec_fn(int) -> bool) -> Seq<int>
    decreases list.len(),
{
    if list.len() == 0 {
        Seq::empty()
    } else if test(list.last()) {
        select(list.drop_last(), test).push(list.last())
    } else {
        select(list.drop_last(), test)
    }
}

/// The paths of the entries at these positions.
pub open spec fn paths_at(entries: Seq<git::Entry>, positions: Seq<int>) -> Seq<Seq<u8>> {
    Seq::new(positions.len(), |i: int| entries[positions[i]].path)
}

/// The positions are those of entries.
pub open spec fn within(positions: Seq<usize>, n: int) -> bool {
    forall|k: int| 0 <= k < positions.len() ==> #[trigger] positions[k] < n
}

/// The paths of the entries at these positions, each followed by NUL.
pub fn listed(entries: &Vec<TreeEntry>, positions: &Vec<usize>) -> (list: Vec<u8>)
    requires
        within(positions@, entries@.len() as int),
    ensures
        list@ == bytes::terminate(
            paths_at(git::entries(entries@), donors::numbers(positions@)),
            0,
        ),
{
    let ghost all = paths_at(git::entries(entries@), donors::numbers(positions@));
    let mut list: Vec<u8> = Vec::new();
    assert(all.take(0) =~= Seq::<Seq<u8>>::empty());
    for i in 0..positions.len()
        invariant
            within(positions@, entries@.len() as int),
            all == paths_at(git::entries(entries@), donors::numbers(positions@)),
            list@ == bytes::terminate(all.take(i as int), 0),
    {
        assert(all.take(i + 1).drop_last() =~= all.take(i as int));
        let path = entries[positions[i]].path.as_slice();
        assert(all.take(i + 1).last() == path@);
        bytes::append(&mut list, path);
        list.push(0);
    }
    assert(all.take(all.len() as int) =~= all);
    list
}

/// What the index of the new worktree holds: the positions of the entries that
/// are checked out, and of those that are not.
#[derive(Debug)]
pub struct IndexPlan {
    pub wanted: Vec<usize>,
    pub omitted: Vec<usize>,
}

/// The entries that the sparse checkout takes in, where there is one.
pub open spec fn included(matched: Option<Seq<u8>>, entries: Seq<git::Entry>) -> spec_fn(
    int,
) -> bool {
    |i: int|
        match matched {
            None => true,
            Some(listing) => pathmap::listed(git::nul_records(listing)).contains(
                paths::components(entries[i].path),
            ),
        }
}

pub open spec fn not(test: spec_fn(int) -> bool) -> spec_fn(int) -> bool {
    |i: int| !test(i)
}

/// Which entries are checked out. `matched` is the listing of the paths that a
/// sparse checkout takes in; without one every path is.
pub fn index_plan(entries: &Vec<TreeEntry>, matched: &Option<Vec<u8>>) -> (plan: IndexPlan)
    ensures
        ({
            let all = git::entries(entries@);
            let test = included(worktree::optional_path(*matched), all);
            let n = all.len() as int;
            &&& donors::numbers(plan.wanted@) == worktree::positions(n, test)
            &&& donors::numbers(plan.omitted@) == worktree::positions(n, not(test))
            &&& within(plan.wanted@, n)
            &&& within(plan.omitted@, n)
        }),
{
    let ghost all = git::entries(entries@);
    let ghost test = included(worktree::optional_path(*matched), all);
    let mut wanted: Vec<usize> = Vec::new();
    let mut omitted: Vec<usize> = Vec::new();
    let everything = matched.is_none();
    let names = match matched {
        Some(listing) => git::nul_paths(listing.as_slice()),
        None => Vec::new(),
    };
    let set = pathmap::path_set(&names);
    assert(donors::numbers(wanted@) =~= Seq::<int>::empty());
    assert(donors::numbers(omitted@) =~= Seq::<int>::empty());
    for i in 0..entries.len()
        invariant
            all == git::entries(entries@),
            test == included(worktree::optional_path(*matched), all),
            everything == (*matched is None),
            set.wf(),
            matched matches Some(listing) ==> set@.dom() == pathmap::listed(
                git::nul_records(listing@),
            ),
            donors::numbers(wanted@) == worktree::positions(i as int, test),
            donors::numbers(omitted@) == worktree::positions(i as int, not(test)),
            within(wanted@, i as int),
            within(omitted@, i as int),
    {
        assert(all[i as int].path == entries@[i as int].path@);
        let kept = everything || set.contains(entries[i].path.as_slice());
        assert(kept == test(i as int));
        assert(not(test)(i as int) == !kept);
        if kept {
            let ghost before = donors::numbers(wanted@);
            wanted.push(i);
            assert(donors::numbers(wanted@) =~= before.push(i as int));
        } else {
            let ghost before = donors::numbers(omitted@);
            omitted.push(i);
            assert(donors::numbers(omitted@) =~= before.push(i as int));
        }
    }
    IndexPlan { wanted, omitted }
}

/// Every entry is either checked out or left out, and none is both: it is
/// checked out exactly where the checkout takes it in.
pub proof fn every_entry_is_wanted_or_omitted(
    entries: Seq<git::Entry>,
    matched: Option<Seq<u8>>,
    i: int,
)
    requires
        0 <= i < entries.len(),
    ensures
        ({
            let test = included(matched, entries);
            let n = entries.len() as int;
            &&& worktree::positions(n, test).contains(i) <==> test(i)
            &&& worktree::positions(n, not(test)).contains(i) <==> !test(i)
        }),
{
    let test = included(matched, entries);
    let n = entries.len() as int;
    worktree::lemma_positions(n, test);
    worktree::lemma_positions(n, not(test));
    let inside = worktree::positions(n, test);
    let outside = worktree::positions(n, not(test));
    if inside.contains(i) {
        let k = choose|k: int| 0 <= k < inside.len() && inside[k] == i;
        assert(test(inside[k]));
    }
    if outside.contains(i) {
        let k = choose|k: int| 0 <= k < outside.len() && outside[k] == i;
        assert(not(test)(outside[k]));
    }
    if !test(i) {
        assert(not(test)(i));
    }
}

/// What is selected is what the list holds and the test accepts.
pub proof fn lemma_select(list: Seq<int>, test: spec_fn(int) -> bool, x: int)
    ensures
        select(list, test).contains(x) <==> list.contains(x) && test(x),
    decreases list.len(),
{
    if list.len() > 0 {
        let init = list.drop_last();
        lemma_select(init, test, x);
        let rest = select(init, test);
        let all = select(list, test);
        if list.contains(x) {
            let k = choose|k: int| 0 <= k < list.len() && list[k] == x;
            if k < init.len() {
                assert(init[k] == x);
            }
        }
        if init.contains(x) {
            let k = choose|k: int| 0 <= k < init.len() && init[k] == x;
            assert(list[k] == x);
        }
        if rest.contains(x) {
            let k = choose|k: int| 0 <= k < rest.len() && rest[k] == x;
            assert(all[k] == x);
        }
        if all.contains(x) {
            let k = choose|k: int| 0 <= k < all.len() && all[k] == x;
            if k < rest.len() {
                assert(rest[k] == x);
            } else {
                assert(x == list[list.len() - 1]);
            }
        }
        if test(list.last()) && x == list.last() {
            assert(all[all.len() - 1] == x);
        }
    }
}

/// A file that can be cloned: the position of its entry, and those of the
/// sources that hold it, in the order in which they are tried.
#[derive(Debug)]
pub struct SeedJob {
    pub entry: usize,
    pub donors: Vec<usize>,
}

/// What a job says.
pub struct SeedPlan {
    pub entry: int,
    pub donors: Seq<int>,
}

impl View for SeedJob {
    type V = SeedPlan;

    open spec fn view(&self) -> SeedPlan {
        SeedPlan { entry: self.entry as int, donors: donors::numbers(self.donors@) }
    }
}

pub open spec fn seed_plans(jobs: Seq<SeedJob>) -> Seq<SeedPlan> {
    Seq::new(jobs.len(), |i: int| jobs[i]@)
}

/// The sources that hold an object at a path, by the first `n` inventories.
pub open spec fn holders(
    inventories: Seq<Inventory>,
    path: Seq<u8>,
    oid: Seq<char>,
    n: int,
) -> Seq<int>
    decreases n,
{
    if n <= 0 {
        Seq::empty()
    } else if inventories[n - 1].offers(path, oid) {
        holders(inventories, path, oid, n - 1).push(inventories[n - 1].donor() as int)
    } else {
        holders(inventories, path, oid, n - 1)
    }
}

/// The inventory at a position holds an object at a path.
pub open spec fn is_holder(inventories: Seq<Inventory>, path: Seq<u8>, oid: Seq<char>) -> spec_fn(
    int,
) -> bool {
    |k: int| inventories[k].offers(path, oid)
}

/// The holders of an object are the sources of just those inventories that hold
/// it, in the order of the inventories.
pub proof fn holders_keep_inventory_order(
    inventories: Seq<Inventory>,
    path: Seq<u8>,
    oid: Seq<char>,
    n: int,
)
    requires
        0 <= n <= inventories.len(),
    ensures
        holders(inventories, path, oid, n) == donors::donors_at(
            inventories,
            worktree::positions(n, is_holder(inventories, path, oid)),
        ),
    decreases n,
{
    let test = is_holder(inventories, path, oid);
    let at = worktree::positions(n, test);
    if n > 0 {
        holders_keep_inventory_order(inventories, path, oid, n - 1);
        let before = worktree::positions(n - 1, test);
        if test(n - 1) {
            assert(donors::donors_at(inventories, at) =~= donors::donors_at(
                inventories,
                before,
            ).push(inventories[n - 1].donor() as int));
        }
    } else {
        assert(donors::donors_at(inventories, at) =~= Seq::<int>::empty());
    }
}

/// Where the inventories stand in the order in which their sources are tried,
/// the holders of an object stand in that order too.
pub proof fn holders_are_in_turn(
    inventories: Seq<Inventory>,
    path: Seq<u8>,
    oid: Seq<char>,
    sources: Seq<Registered>,
    commit: Seq<char>,
    cwd: Seq<u8>,
)
    requires
        in_turn(sources, commit, cwd, donors::donors_of(inventories)),
    ensures
        in_turn(
            sources,
            commit,
            cwd,
            holders(inventories, path, oid, inventories.len() as int),
        ),
{
    let n = inventories.len() as int;
    let test = is_holder(inventories, path, oid);
    let at = worktree::positions(n, test);
    let every = donors::donors_of(inventories);
    let found = holders(inventories, path, oid, n);
    holders_keep_inventory_order(inventories, path, oid, n);
    worktree::lemma_positions(n, test);
    worktree::lemma_positions_ascend(n, test);
    assert forall|a: int, b: int| 0 <= a < b < found.len() implies goes_before(
        sources[#[trigger] found[a]],
        sources[#[trigger] found[b]],
        commit,
        cwd,
    ) by {
        assert(at[a] < at[b]);
        assert(found[a] == every[at[a]] && found[b] == every[at[b]]);
    }
}

/// The files that can be cloned: regular ones that may be taken over byte for
/// byte and that a source holds.
pub open spec fn seed_jobs_of(
    entries: Seq<git::Entry>,
    wanted: Seq<int>,
    safe: Set<Seq<Seq<u8>>>,
    inventories: Seq<Inventory>,
) -> Seq<SeedPlan>
    decreases wanted.len(),
{
    if wanted.len() == 0 {
        Seq::empty()
    } else {
        let rest = seed_jobs_of(entries, wanted.drop_last(), safe, inventories);
        let entry = entries[wanted.last()];
        let found = holders(inventories, entry.path, entry.oid, inventories.len() as int);
        if entry.regular && safe.contains(paths::components(entry.path)) && found.len() > 0 {
            rest.push(SeedPlan { entry: wanted.last(), donors: found })
        } else {
            rest
        }
    }
}

/// The sources that hold an object at a path.
pub fn find_holders(inventories: &Vec<Inventory>, path: &[u8], oid: &str) -> (found: Vec<usize>)
    requires
        forall|k: int| 0 <= k < inventories@.len() ==> (#[trigger] inventories@[k]).wf(),
    ensures
        donors::numbers(found@) == holders(
            inventories@,
            path@,
            oid@,
            inventories@.len() as int,
        ),
{
    let mut found: Vec<usize> = Vec::new();
    assert(donors::numbers(found@) =~= Seq::<int>::empty());
    for k in 0..inventories.len()
        invariant
            forall|k: int| 0 <= k < inventories@.len() ==> (#[trigger] inventories@[k]).wf(),
            donors::numbers(found@) == holders(inventories@, path@, oid@, k as int),
    {
        if inventories[k].holds(path, oid) {
            let ghost before = donors::numbers(found@);
            let donor = inventories[k].donor_position();
            found.push(donor);
            assert(donors::numbers(found@) =~= before.push(donor as int));
        }
    }
    found
}

/// The files that can be cloned.
pub fn plan_seeds(
    entries: &Vec<TreeEntry>,
    wanted: &Vec<usize>,
    safe: &SafePaths,
    inventories: &Vec<Inventory>,
) -> (jobs: Vec<SeedJob>)
    requires
        within(wanted@, entries@.len() as int),
        forall|k: int| 0 <= k < inventories@.len() ==> (#[trigger] inventories@[k]).wf(),
    ensures
        seed_plans(jobs@) == seed_jobs_of(
            git::entries(entries@),
            donors::numbers(wanted@),
            safe@,
            inventories@,
        ),
        forall|j: int| 0 <= j < jobs@.len() ==> (#[trigger] jobs@[j]).entry < entries@.len(),
{
    let ghost all = git::entries(entries@);
    let ghost list = donors::numbers(wanted@);
    let mut jobs: Vec<SeedJob> = Vec::new();
    assert(list.take(0) =~= Seq::<int>::empty());
    assert(seed_plans(jobs@) =~= seed_jobs_of(all, list.take(0), safe@, inventories@));
    for i in 0..wanted.len()
        invariant
            within(wanted@, entries@.len() as int),
            forall|k: int| 0 <= k < inventories@.len() ==> (#[trigger] inventories@[k]).wf(),
            all == git::entries(entries@),
            list == donors::numbers(wanted@),
            seed_plans(jobs@) == seed_jobs_of(all, list.take(i as int), safe@, inventories@),
            forall|j: int| 0 <= j < jobs@.len() ==> (#[trigger] jobs@[j]).entry < entries@.len(),
    {
        assert(list.take(i + 1).drop_last() =~= list.take(i as int));
        assert(list.take(i + 1).last() == wanted@[i as int] as int);
        let at: usize = wanted[i];
        let entry = &entries[at];
        assert(all[at as int] == entry@);
        if entry.regular && safe.contains(entry.path.as_slice()) {
            let found = find_holders(inventories, entry.path.as_slice(), entry.oid.as_str());
            assert(donors::numbers(found@).len() == found@.len());
            if found.len() > 0 {
                let ghost before = seed_plans(jobs@);
                let job = SeedJob { entry: at, donors: found };
                let ghost one = job@;
                jobs.push(job);
                assert(seed_plans(jobs@) =~= before.push(one));
            }
        }
    }
    assert(list.take(list.len() as int) =~= list);
    jobs
}

/// A job is for a regular file that may be taken over byte for byte, and each
/// of its donors holds the object of its entry.
pub proof fn seed_jobs_are_sound(
    entries: Seq<git::Entry>,
    wanted: Seq<int>,
    safe: Set<Seq<Seq<u8>>>,
    inventories: Seq<Inventory>,
    j: int,
)
    requires
        0 <= j < seed_jobs_of(entries, wanted, safe, inventories).len(),
    ensures
        ({
            let job = seed_jobs_of(entries, wanted, safe, inventories)[j];
            let entry = entries[job.entry];
            &&& wanted.contains(job.entry)
            &&& entry.regular
            &&& safe.contains(paths::components(entry.path))
            &&& job.donors == holders(
                inventories,
                entry.path,
                entry.oid,
                inventories.len() as int,
            )
            &&& job.donors.len() > 0
        }),
    decreases wanted.len(),
{
    let init = wanted.drop_last();
    let before = seed_jobs_of(entries, init, safe, inventories);
    if j < before.len() {
        seed_jobs_are_sound(entries, init, safe, inventories, j);
        let job = before[j];
        let k = choose|k: int| 0 <= k < init.len() && init[k] == job.entry;
        assert(wanted[k] == job.entry);
    } else {
        assert(wanted[wanted.len() - 1] == wanted.last());
    }
}

/// Where the inventories stand in the order in which their sources are tried,
/// every job tries its sources in that order.
pub proof fn seed_jobs_are_in_turn(
    entries: Seq<git::Entry>,
    wanted: Seq<int>,
    safe: Set<Seq<Seq<u8>>>,
    inventories: Seq<Inventory>,
    j: int,
    sources: Seq<Registered>,
    commit: Seq<char>,
    cwd: Seq<u8>,
)
    requires
        0 <= j < seed_jobs_of(entries, wanted, safe, inventories).len(),
        in_turn(sources, commit, cwd, donors::donors_of(inventories)),
    ensures
        in_turn(
            sources,
            commit,
            cwd,
            seed_jobs_of(entries, wanted, safe, inventories)[j].donors,
        ),
{
    seed_jobs_are_sound(entries, wanted, safe, inventories, j);
    let entry = entries[seed_jobs_of(entries, wanted, safe, inventories)[j].entry];
    holders_are_in_turn(inventories, entry.path, entry.oid, sources, commit, cwd);
}

/// A worker's way through its jobs: which job and which of its donors is next,
/// what was cloned so far, and the error that ended the work.
pub struct SeedRun {
    job: usize,
    donor: usize,
    end: usize,
    completed: Vec<Seeded>,
    error: Option<Error>,
}

/// Where a worker stands.
pub struct SeedState {
    pub job: int,
    pub donor: int,
    pub end: int,
    pub completed: Seq<Seed>,
    pub error: Option<Failure>,
}

/// What follows an attempt.
#[derive(Clone, Copy, Debug, PartialEq, Eq, Structural)]
pub enum SeedStep {
    /// Inspect the clone that was made.
    Inspect,
    /// Ask for the next attempt.
    Continue,
}

/// The next state before an attempt: jobs without a donor left are passed. A
/// stop counts at the beginning of a job.
pub open spec fn advance(state: SeedState, jobs: Seq<SeedPlan>, stop: bool) -> SeedState
    decreases state.end - state.job,
{
    if state.job >= state.end {
        state
    } else if state.donor == 0 && stop {
        SeedState { job: state.end, ..state }
    } else if state.donor < jobs[state.job].donors.len() {
        state
    } else {
        advance(SeedState { job: state.job + 1, donor: 0, ..state }, jobs, stop)
    }
}

/// After an attempt: a clone settles the job, otherwise the next donor is tried.
pub open spec fn after_attempt(state: SeedState, cloned: Option<Seed>) -> SeedState {
    match cloned {
        Some(seed) => SeedState {
            job: state.job + 1,
            donor: 0,
            completed: state.completed.push(seed),
            ..state
        },
        None => SeedState { donor: state.donor + 1, ..state },
    }
}

/// After an error: it ends the worker, which keeps what it cloned.
pub open spec fn after_failure(state: SeedState, failure: Failure) -> SeedState {
    SeedState { job: state.end, donor: 0, error: Some(failure), ..state }
}

/// After the platform's answer to an attempt: a clone is to be inspected; where
/// the donor had no regular file, or it changed, the next donor is tried; an
/// error ends the worker.
pub open spec fn after_answer(state: SeedState, answer: Result<CloneOutcome, Failure>) -> (
    SeedState,
    SeedStep,
) {
    match answer {
        Ok(CloneOutcome::Cloned) => (state, SeedStep::Inspect),
        Ok(CloneOutcome::NotRegular) => (after_attempt(state, None), SeedStep::Continue),
        Ok(CloneOutcome::ChangedDuringClone) => (after_attempt(state, None), SeedStep::Continue),
        Err(failure) => (after_failure(state, failure), SeedStep::Continue),
    }
}

/// After the inspection of a clone: it settles the job, or what went wrong ends
/// the worker.
pub open spec fn after_inspection(
    state: SeedState,
    path: Seq<u8>,
    source: Seq<char>,
    identity: Result<Identity, Seq<char>>,
) -> SeedState {
    match identity {
        Ok(identity) => after_attempt(state, Some(Seed { path, identity, source })),
        Err(text) => after_failure(state, Failure::Io(text)),
    }
}

impl SeedRun {
    pub closed spec fn state(&self) -> SeedState {
        SeedState {
            job: self.job as int,
            donor: self.donor as int,
            end: self.end as int,
            completed: ownership::seeds(self.completed@),
            error: error::optional(self.error),
        }
    }

    /// A worker for the jobs from `start` to `end`.
    pub fn new(start: usize, end: usize) -> (run: Self)
        ensures
            run.state() == (SeedState {
                job: start as int,
                donor: 0,
                end: end as int,
                completed: Seq::empty(),
                error: None,
            }),
    {
        let run = SeedRun { job: start, donor: 0, end, completed: Vec::new(), error: None };
        assert(ownership::seeds(run.completed@) =~= Seq::<Seed>::empty());
        run
    }

    /// The next attempt: the job, and the source to clone from; `None` where
    /// nothing is left to do. `stop` says that the work is to end.
    pub fn next(&mut self, jobs: &Vec<SeedJob>, stop: bool) -> (attempt: Option<(usize, usize)>)
        requires
            old(self).state().end <= jobs@.len(),
        ensures
            final(self).state() == advance(old(self).state(), seed_plans(jobs@), stop),
            attempt is None <==> final(self).state().job >= final(self).state().end,
            attempt matches Some((job, source)) ==> {
                let state = final(self).state();
                &&& job == state.job
                &&& job < jobs@.len()
                &&& 0 <= state.donor < jobs@[job as int].donors@.len()
                &&& source == jobs@[job as int].donors@[state.donor]
            },
    {
        let ghost plans = seed_plans(jobs@);
        let ghost first = self.state();
        while self.job < self.end
            invariant
                plans == seed_plans(jobs@),
                self.end <= jobs@.len(),
                advance(first, plans, stop) == advance(self.state(), plans, stop),
                first == old(self).state(),
            decreases self.end - self.job,
        {
            let job = self.job;
            assert(plans[job as int] == jobs@[job as int]@);
            assert(plans[job as int].donors.len() == jobs@[job as int].donors@.len());
            if self.donor == 0 && stop {
                self.job = self.end;
                return None;
            }
            if self.donor < jobs[job].donors.len() {
                return Some((job, jobs[job].donors[self.donor]));
            }
            self.job = job + 1;
            self.donor = 0;
        }
        None
    }

    /// Takes in what the platform answered to the attempt.
    pub fn answered(&mut self, answer: Result<CloneOutcome, Error>) -> (step: SeedStep)
        requires
            old(self).state().job < old(self).state().end,
            old(self).state().donor < usize::MAX,
        ensures
            (final(self).state(), step) == after_answer(
                old(self).state(),
                clones::answer_view(answer),
            ),
    {
        match answer {
            Ok(CloneOutcome::Cloned) => SeedStep::Inspect,
            Ok(CloneOutcome::NotRegular) | Ok(CloneOutcome::ChangedDuringClone) => {
                self.donor = self.donor + 1;
                SeedStep::Continue
            },
            Err(error) => {
                self.fail(error);
                SeedStep::Continue
            },
        }
    }

    /// Takes in what the clone at `path` of a file of the commit `source` is.
    pub fn inspected(&mut self, path: &[u8], source: &str, identity: Result<Identity, String>)
        requires
            old(self).state().job < old(self).state().end,
        ensures
            final(self).state() == after_inspection(
                old(self).state(),
                path@,
                source@,
                replace::look(identity),
            ),
    {
        match identity {
            Ok(identity) => {
                let ghost before = ownership::seeds(self.completed@);
                let seeded = Seeded {
                    path: bytes::copy(path),
                    identity,
                    source: source.to_owned(),
                };
                let ghost one = seeded@;
                self.completed.push(seeded);
                assert(ownership::seeds(self.completed@) =~= before.push(one));
                self.job = self.job + 1;
                self.donor = 0;
            },
            Err(text) => self.fail(Error::Io(text)),
        }
    }

    fn fail(&mut self, error: Error)
        ensures
            final(self).state() == after_failure(old(self).state(), error@),
    {
        self.job = self.end;
        self.donor = 0;
        self.error = Some(error);
    }

    /// What the worker did.
    pub fn finish(self) -> (share: Share)
        ensures
            ownership::seeds(share.completed@) == self.state().completed,
            error::optional(share.error) == self.state().error,
    {
        Share { completed: self.completed, error: self.error }
    }
}

/// An error ends the worker: there is no further attempt, and what was cloned
/// before is kept.
pub proof fn failure_ends_the_worker(
    state: SeedState,
    failure: Failure,
    jobs: Seq<SeedPlan>,
    stop: bool,
)
    ensures
        ({
            let ended = advance(after_answer(state, Err(failure)).0, jobs, stop);
            &&& ended.job >= ended.end
            &&& ended.completed == state.completed
            &&& ended.error == Some(failure)
        }),
{
}

/// A donor without a regular file, or one that changed, leads to the job's next
/// donor, even when the work is to end; without a further donor the job is
/// passed.
pub proof fn unusable_donor_leads_to_the_next(
    state: SeedState,
    jobs: Seq<SeedPlan>,
    stop: bool,
    outcome: CloneOutcome,
)
    requires
        outcome != CloneOutcome::Cloned,
        state.job < state.end,
        0 <= state.donor < jobs[state.job].donors.len(),
    ensures
        ({
            let next = advance(after_answer(state, Ok(outcome)).0, jobs, stop);
            &&& next.completed == state.completed
            &&& if state.donor + 1 < jobs[state.job].donors.len() {
                next.job == state.job && next.donor == state.donor + 1
            } else {
                next.job > state.job
            }
        }),
{
    let after = after_answer(state, Ok(outcome)).0;
    if state.donor + 1 >= jobs[state.job].donors.len() {
        let passed = SeedState { job: after.job + 1, donor: 0, ..after };
        work_only_advances(passed, jobs, stop, None);
    }
}

/// A worker never goes back, and no job is cloned twice: a job that was cloned
/// is behind it.
pub proof fn work_only_advances(
    state: SeedState,
    jobs: Seq<SeedPlan>,
    stop: bool,
    cloned: Option<Seed>,
)
    requires
        0 <= state.donor,
    ensures
        advance(state, jobs, stop).job >= state.job,
        advance(state, jobs, stop).completed == state.completed,
        advance(state, jobs, stop).end == state.end,
        after_attempt(state, cloned).completed.len() - state.completed.len() == after_attempt(
            state,
            cloned,
        ).job - state.job,
    decreases state.end - state.job,
{
    if state.job < state.end && !(state.donor == 0 && stop) && state.donor
        >= jobs[state.job].donors.len() {
        work_only_advances(
            SeedState { job: state.job + 1, donor: 0, ..state },
            jobs,
            stop,
            cloned,
        );
    }
}

/// Of two sources, the one at the wanted commit is tried first. Where both are
/// at it or neither is, the one whose path begins that of the working directory
/// is; where this says nothing either, the one whose path does not come after
/// the other's. None is lost.
pub proof fn sources_are_tried_in_turn(
    sources: Seq<Registered>,
    positions: Seq<int>,
    commit: Seq<char>,
    cwd: Seq<u8>,
    a: int,
    b: int,
)
    requires
        positions.len() <= usize::MAX,
        0 <= a < b < positions.len(),
    ensures
        ({
            let list = ranked_sources(sources, positions, commit, cwd);
            let one = sources[list[a]];
            let other = sources[list[b]];
            let start = paths::components(one.path);
            let next = paths::components(other.path);
            let here = paths::components(cwd);
            let inside = start.len() <= here.len() && here.take(start.len() as int) == start;
            let other_inside = next.len() <= here.len() && here.take(next.len() as int) == next;
            &&& list.to_multiset() == positions.to_multiset()
            &&& other.head == commit ==> one.head == commit
            &&& (one.head == commit) == (other.head == commit) && other_inside ==> inside
            &&& (one.head == commit) == (other.head == commit) && inside == other_inside
                ==> !order::key_less(next, start)
        }),
{
    ranking_prefers_commit_then_place_then_path(sources, positions, commit, cwd);
    let list = ranked_sources(sources, positions, commit, cwd);
    assert(goes_before(sources[list[a]], sources[list[b]], commit, cwd));
}

/// The sources that can be cloned from are all those that were found valid, but
/// for the target itself, in their order.
pub proof fn valid_sources_are_used(
    sources: Seq<Registered>,
    target: Seq<u8>,
    answers: Seq<Result<(), Error>>,
)
    ensures
        ({
            let used = worktree::positions(
                sources.len() as int,
                is_usable(sources, target, answers),
            );
            &&& forall|i: int|
                used.contains(i) <==> 0 <= i < sources.len() && i < answers.len() && answers[i]
                    is Ok && paths::components(sources[i].path) != paths::components(target)
            &&& forall|a: int, b: int| 0 <= a < b < used.len() ==> used[a] < used[b]
        }),
{
    let n = sources.len() as int;
    let test = is_usable(sources, target, answers);
    worktree::positions_are_those_that_pass(n, test);
    let used = worktree::positions(n, test);
    assert forall|i: int|
        used.contains(i) <==> 0 <= i < sources.len() && i < answers.len() && answers[i] is Ok
            && paths::components(sources[i].path) != paths::components(target) by {
        assert(used.contains(i) <==> 0 <= i < n && test(i));
    }
}

/// Without a sparse checkout every entry is checked out. With one, those are
/// whose paths it lists, in the order of the tree, and the others are left out.
pub proof fn sparse_checkouts_take_in_what_they_list(
    entries: Seq<git::Entry>,
    matched: Option<Seq<u8>>,
    i: int,
)
    requires
        0 <= i < entries.len(),
    ensures
        ({
            let n = entries.len() as int;
            let wanted = worktree::positions(n, included(matched, entries));
            let omitted = worktree::positions(n, not(included(matched, entries)));
            let listed = exists|r: int|
                0 <= r < git::nul_records(matched->0).len() && paths::components(
                    #[trigger] git::nul_records(matched->0)[r],
                ) == paths::components(entries[i].path);
            &&& wanted.contains(i) <==> matched is None || listed
            &&& omitted.contains(i) <==> matched is Some && !listed
            &&& forall|a: int, b: int| 0 <= a < b < wanted.len() ==> wanted[a] < wanted[b]
            &&& forall|a: int, b: int| 0 <= a < b < omitted.len() ==> omitted[a] < omitted[b]
        }),
{
    every_entry_is_wanted_or_omitted(entries, matched, i);
    let n = entries.len() as int;
    worktree::lemma_positions_ascend(n, included(matched, entries));
    worktree::lemma_positions_ascend(n, not(included(matched, entries)));
    if matched is Some {
        pathmap::listed_paths_are_in_the_set(
            git::nul_records(matched->0),
            paths::components(entries[i].path),
        );
    }
}

/// What is selected keeps its order, and `at` says where each of it stood.
pub proof fn selections_keep_the_order(list: Seq<int>, test: spec_fn(int) -> bool) -> (at: Seq<int>)
    ensures
        select(list, test).len() == at.len(),
        forall|k: int|
            0 <= k < at.len() ==> 0 <= #[trigger] at[k] < list.len() && select(list, test)[k]
                == list[at[k]],
        forall|a: int, b: int| 0 <= a < b < at.len() ==> at[a] < at[b],
        forall|w: int| at.contains(w) <==> 0 <= w < list.len() && test(list[w]),
    decreases list.len(),
{
    if list.len() == 0 {
        Seq::empty()
    } else {
        let init = list.drop_last();
        let n = list.len() - 1;
        let before = selections_keep_the_order(init, test);
        assert forall|w: int| before.contains(w) implies 0 <= w < n by {}
        assert forall|k: int| 0 <= k < before.len() implies 0 <= #[trigger] before[k] < n by {
            assert(before.contains(before[k]));
        }
        let at = if test(list[n]) {
            before.push(n)
        } else {
            before
        };
        assert forall|w: int| at.contains(w) <==> 0 <= w < list.len() && test(list[w]) by {
            if at.contains(w) {
                let k = choose|k: int| 0 <= k < at.len() && at[k] == w;
                if k < before.len() {
                    assert(before.contains(w));
                    assert(init[w] == list[w]);
                }
            }
            if 0 <= w < n && test(list[w]) {
                assert(init[w] == list[w]);
                assert(before.contains(w));
                let k = choose|k: int| 0 <= k < before.len() && before[k] == w;
                assert(at[k] == w);
            }
            if w == n && test(list[w]) {
                assert(at[before.len() as int] == w);
            }
        }
        at
    }
}

/// The holders of an object are the sources of all inventories that offer it, in
/// the order of the inventories; `at` says which these are.
pub proof fn all_holders_are_found(
    inventories: Seq<Inventory>,
    path: Seq<u8>,
    oid: Seq<char>,
) -> (at: Seq<int>)
    ensures
        ({
            let found = holders(inventories, path, oid, inventories.len() as int);
            &&& found.len() == at.len()
            &&& forall|k: int|
                0 <= k < at.len() ==> 0 <= #[trigger] at[k] < inventories.len() && found[k]
                    == inventories[at[k]].donor()
            &&& forall|a: int, b: int| 0 <= a < b < at.len() ==> at[a] < at[b]
            &&& forall|i: int|
                at.contains(i) <==> 0 <= i < inventories.len() && inventories[i].offers(path, oid)
        }),
{
    let n = inventories.len() as int;
    let test = is_holder(inventories, path, oid);
    holders_keep_inventory_order(inventories, path, oid, n);
    worktree::positions_are_those_that_pass(n, test);
    let at = worktree::positions(n, test);
    assert forall|k: int| 0 <= k < at.len() implies 0 <= #[trigger] at[k] < n by {
        assert(at.contains(at[k]));
    }
    assert forall|i: int|
        at.contains(i) <==> 0 <= i < inventories.len() && inventories[i].offers(path, oid) by {
        assert(at.contains(i) <==> 0 <= i < n && test(i));
    }
    at
}

/// There is a job for every wanted entry that is a regular file, may be taken
/// over byte for byte, and is offered by some inventory, and for no other, in
/// their order; `at` says which entries these are. Each job has all the sources
/// that hold its object.
pub proof fn every_file_on_offer_has_a_job(
    entries: Seq<git::Entry>,
    wanted: Seq<int>,
    safe: Set<Seq<Seq<u8>>>,
    inventories: Seq<Inventory>,
) -> (at: Seq<int>)
    ensures
        ({
            let jobs = seed_jobs_of(entries, wanted, safe, inventories);
            &&& jobs.len() == at.len()
            &&& forall|j: int|
                0 <= j < at.len() ==> 0 <= #[trigger] at[j] < wanted.len() && jobs[j].entry
                    == wanted[at[j]] && jobs[j].donors == holders(
                    inventories,
                    entries[wanted[at[j]]].path,
                    entries[wanted[at[j]]].oid,
                    inventories.len() as int,
                )
            &&& forall|a: int, b: int| 0 <= a < b < at.len() ==> at[a] < at[b]
            &&& forall|w: int|
                at.contains(w) <==> 0 <= w < wanted.len() && {
                    let entry = entries[wanted[w]];
                    &&& entry.regular
                    &&& safe.contains(paths::components(entry.path))
                    &&& exists|i: int|
                        0 <= i < inventories.len() && (#[trigger] inventories[i]).offers(
                            entry.path,
                            entry.oid,
                        )
                }
        }),
    decreases wanted.len(),
{
    if wanted.len() == 0 {
        Seq::empty()
    } else {
        let init = wanted.drop_last();
        let n = wanted.len() - 1;
        let before = every_file_on_offer_has_a_job(entries, init, safe, inventories);
        let entry = entries[wanted[n]];
        let offering = all_holders_are_found(inventories, entry.path, entry.oid);
        let offered = exists|i: int|
            0 <= i < inventories.len() && (#[trigger] inventories[i]).offers(
                entry.path,
                entry.oid,
            );
        assert(offered <==> offering.len() > 0) by {
            if offered {
                let i = choose|i: int|
                    0 <= i < inventories.len() && (#[trigger] inventories[i]).offers(
                        entry.path,
                        entry.oid,
                    );
                assert(offering.contains(i));
            }
            if offering.len() > 0 {
                assert(offering.contains(offering[0]));
                assert(inventories[offering[0]].offers(entry.path, entry.oid));
            }
        }
        let due = entry.regular && safe.contains(paths::components(entry.path)) && offered;
        assert forall|k: int| 0 <= k < before.len() implies 0 <= #[trigger] before[k] < n by {
            assert(before.contains(before[k]));
        }
        let at = if due {
            before.push(n)
        } else {
            before
        };
        assert(wanted.last() == wanted[n]);
        let jobs = seed_jobs_of(entries, wanted, safe, inventories);
        let old_jobs = seed_jobs_of(entries, init, safe, inventories);
        assert forall|j: int| 0 <= j < at.len() implies 0 <= #[trigger] at[j] < wanted.len()
            && jobs[j].entry == wanted[at[j]] && jobs[j].donors == holders(
            inventories,
            entries[wanted[at[j]]].path,
            entries[wanted[at[j]]].oid,
            inventories.len() as int,
        ) by {
            if j < before.len() {
                assert(at[j] == before[j]);
                assert(jobs[j] == old_jobs[j]);
                assert(init[before[j]] == wanted[before[j]]);
            }
        }
        assert forall|w: int|
            at.contains(w) <==> 0 <= w < wanted.len() && {
                let entry = entries[wanted[w]];
                &&& entry.regular
                &&& safe.contains(paths::components(entry.path))
                &&& exists|i: int|
                    0 <= i < inventories.len() && (#[trigger] inventories[i]).offers(
                        entry.path,
                        entry.oid,
                    )
            } by {
            if 0 <= w < n {
                assert(init[w] == wanted[w]);
                if before.contains(w) {
                    let k = choose|k: int| 0 <= k < before.len() && before[k] == w;
                    assert(at[k] == w);
                }
                if at.contains(w) {
                    let k = choose|k: int| 0 <= k < at.len() && at[k] == w;
                    assert(before[k] == w);
                }
            }
            if w == n {
                if due {
                    assert(at[before.len() as int] == n);
                }
                if at.contains(w) && !due {
                    let k = choose|k: int| 0 <= k < at.len() && at[k] == w;
                    assert(before[k] < n);
                }
            }
            if at.contains(w) {
                let k = choose|k: int| 0 <= k < at.len() && at[k] == w;
                assert(0 <= at[k] < wanted.len());
            }
        }
        at
    }
}

/// The next attempt is for the first job, from the present one on, that has a
/// source left. Where the work is to end, only a job that was begun goes on.
pub proof fn jobs_are_taken_in_order(state: SeedState, jobs: Seq<SeedPlan>, stop: bool)
    requires
        state.job < state.end,
        0 <= state.donor,
    ensures
        ({
            let next = advance(state, jobs, stop);
            let left = state.donor < jobs[state.job].donors.len();
            &&& next.end == state.end
            &&& next.completed == state.completed
            &&& next.error == state.error
            &&& left && !(stop && state.donor == 0) ==> next == state
            &&& stop && (state.donor == 0 || !left) ==> next.job == state.end
            &&& !stop && !left ==> {
                &&& state.job < next.job <= state.end
                &&& next.donor == 0
                &&& next.job < state.end ==> jobs[next.job].donors.len() > 0
                &&& forall|k: int|
                    state.job < k < next.job ==> (#[trigger] jobs[k]).donors.len() == 0
            }
        }),
    decreases state.end - state.job,
{
    if !(state.donor == 0 && stop) && state.donor >= jobs[state.job].donors.len() {
        let passed = SeedState { job: state.job + 1, donor: 0, ..state };
        if passed.job < passed.end {
            jobs_are_taken_in_order(passed, jobs, stop);
        }
    }
}

/// A clone that was made is inspected. Where it can be, the job is settled: the
/// clone is kept behind those before, and the next job begins with its first
/// source. Where it cannot, the worker ends with the error.
pub proof fn a_clone_settles_its_job(
    state: SeedState,
    path: Seq<u8>,
    source: Seq<char>,
    identity: Identity,
    text: Seq<char>,
)
    ensures
        after_answer(state, Ok(CloneOutcome::Cloned)) == (state, SeedStep::Inspect),
        ({
            let after = after_inspection(state, path, source, Ok(identity));
            &&& after.job == state.job + 1
            &&& after.donor == 0
            &&& after.end == state.end
            &&& after.error == state.error
            &&& after.completed == state.completed.push(Seed { path, identity, source })
        }),
        ({
            let after = after_inspection(state, path, source, Err(text));
            &&& after.job == state.end
            &&& after.end == state.end
            &&& after.error == Some(Failure::Io(text))
            &&& after.completed == state.completed
        }),
{
}

/// Jobs are seen as they are.
pub proof fn seed_jobs_are_seen_as_they_are(jobs: Seq<SeedJob>, i: int, d: int)
    requires
        0 <= i < jobs.len(),
    ensures
        seed_plans(jobs).len() == jobs.len(),
        seed_plans(jobs)[i].entry == jobs[i].entry,
        seed_plans(jobs)[i].donors.len() == jobs[i].donors@.len(),
        0 <= d < jobs[i].donors@.len() ==> seed_plans(jobs)[i].donors[d] == jobs[i].donors@[d],
{
}

} // verus!
