//! The worktrees that files can be cloned from, and what they hold.
use crate::bytes;
use crate::error;
use crate::error::{Error, Failure};
use crate::fresh;
use crate::git;
use crate::git::TreeEntry;
use crate::order;
use crate::pathmap::PathMap;
use crate::paths;
use crate::platform::ClonePlatform;
use crate::text;
use crate::worktree;
use crate::worktree::{Registered, Worktree};
use vstd::prelude::*;
use vstd::string::*;

verus! {

/// What validating each donor came to.
pub open spec fn answers_view(answers: Seq<Result<(), Error>>) -> Seq<Result<(), Failure>> {
    Seq::new(answers.len(), |i: int| fresh::opened_view(answers[i]))
}

/// The positions of the donors that can be used: not the target itself, and
/// valid. Where the donors are restricted to one that was named, each of these
/// reasons is an error.
pub open spec fn usable(
    donors: Seq<Registered>,
    target: Seq<u8>,
    restricted: bool,
    answers: Seq<Result<(), Failure>>,
) -> Result<Seq<int>, Failure>
    decreases donors.len(),
{
    if donors.len() == 0 {
        Ok(Seq::empty())
    } else {
        let i = donors.len() - 1;
        match usable(donors.drop_last(), target, restricted, answers) {
            Err(failure) => Err(failure),
            Ok(before) => if paths::components(donors[i].path) == paths::components(target) {
                if restricted {
                    Err(Failure::Message("cannot compact a worktree against itself"@))
                } else {
                    Ok(before)
                }
            } else {
                match answers[i] {
                    Ok(()) => Ok(before.push(i)),
                    Err(failure) => if restricted {
                        Err(failure)
                    } else {
                        Ok(before)
                    },
                }
            },
        }
    }
}

proof fn lemma_usable_error(
    donors: Seq<Registered>,
    target: Seq<u8>,
    restricted: bool,
    answers: Seq<Result<(), Failure>>,
    n: int,
)
    requires
        0 <= n <= donors.len(),
        usable(donors.take(n), target, restricted, answers) is Err,
    ensures
        usable(donors, target, restricted, answers) == usable(
            donors.take(n),
            target,
            restricted,
            answers,
        ),
    decreases donors.len(),
{
    if n < donors.len() {
        assert(donors.drop_last().take(n) =~= donors.take(n));
        lemma_usable_error(donors.drop_last(), target, restricted, answers, n);
    } else {
        assert(donors.take(n) =~= donors);
    }
}

/// What a list of positions says.
pub open spec fn numbers(list: Seq<usize>) -> Seq<int> {
    Seq::new(list.len(), |i: int| list[i] as int)
}

/// The positions of the donors that can be used. `answers` is what validating
/// each donor against the target came to.
#[verifier::loop_isolation(false)]
pub fn usable_donors(
    donors: &Vec<Worktree>,
    target: &[u8],
    restricted: bool,
    answers: Vec<Result<(), Error>>,
) -> (result: Result<Vec<usize>, Error>)
    requires
        answers@.len() == donors@.len(),
    ensures
        ({
            let found = usable(
                worktree::registered(donors@),
                target@,
                restricted,
                answers_view(answers@),
            );
            &&& result is Ok <==> found is Ok
            &&& result matches Ok(list) ==> found == Ok::<Seq<int>, Failure>(numbers(list@))
                && forall|k: int| 0 <= k < list@.len() ==> #[trigger] list@[k] < donors@.len()
            &&& result matches Err(error) ==> found == Err::<Seq<int>, Failure>(error@)
        }),
{
    let ghost all = worktree::registered(donors@);
    let ghost said = answers_view(answers@);
    let mut pending = answers;
    let ghost given = pending@;
    let mut list: Vec<usize> = Vec::new();
    assert(all.take(0) =~= Seq::<Registered>::empty());
    assert(numbers(list@) =~= Seq::<int>::empty());
    for i in 0..donors.len()
        invariant
            all == worktree::registered(donors@),
            said == answers_view(given),
            given.len() == donors@.len(),
            pending@.len() == donors@.len(),
            forall|k: int| i <= k < donors@.len() ==> #[trigger] pending@[k] == given[k],
            forall|k: int| 0 <= k < list@.len() ==> #[trigger] list@[k] < i,
            usable(all.take(i as int), target@, restricted, said) == Ok::<Seq<int>, Failure>(
                numbers(list@),
            ),
    {
        assert(all.take(i + 1).drop_last() =~= all.take(i as int));
        assert(all.take(i + 1)[i as int] == donors@[i as int]@);
        if paths::same(donors[i].path.as_slice(), target) {
            if restricted {
                proof {
                    lemma_usable_error(all, target@, restricted, said, i + 1);
                }
                return Err(error::message("cannot compact a worktree against itself"));
            }
        } else {
            let mut answer: Result<(), Error> = Ok(());
            std::mem::swap(&mut answer, &mut pending[i]);
            assert(answer == given[i as int]);
            assert(said[i as int] == fresh::opened_view(answer));
            match answer {
                Ok(()) => {
                    let ghost before = numbers(list@);
                    list.push(i);
                    assert(numbers(list@) =~= before.push(i as int));
                },
                Err(error) => {
                    if restricted {
                        proof {
                            lemma_usable_error(all, target@, restricted, said, i + 1);
                        }
                        return Err(error);
                    }
                },
            }
        }
    }
    assert(all.take(all.len() as int) =~= all);
    Ok(list)
}

/// The platform was asked whether files of `source` can be cloned into `target`,
/// and gave this answer.
pub open spec fn was_asked<P: ClonePlatform>(
    platform: &P,
    source: Seq<u8>,
    target: Seq<u8>,
    answer: Result<(), Error>,
) -> bool {
    exists|s: &[u8], t: &[u8]|
        s@ == source && t@ == target && #[trigger] call_ensures(
            P::validate,
            (platform, s, t),
            answer,
        )
}

/// These are the platform's answers, one for each donor; it is not asked about
/// the target itself.
pub open spec fn were_asked<P: ClonePlatform>(
    platform: &P,
    donors: Seq<Registered>,
    target: Seq<u8>,
    answers: Seq<Result<(), Error>>,
) -> bool {
    &&& answers.len() == donors.len()
    &&& forall|i: int|
        0 <= i < donors.len() ==> paths::components(donors[i].path) == paths::components(target)
            || was_asked(platform, donors[i].path, target, #[trigger] answers[i])
}

/// The donors that can be used, on a given platform: what its validation says
/// of each of them decides.
pub fn validated_donors<P: ClonePlatform>(
    platform: &P,
    donors: &Vec<Worktree>,
    target: &[u8],
    restricted: bool,
) -> (result: Result<Vec<usize>, Error>)
    ensures
        exists|answers: Seq<Result<(), Error>>|
            {
                let found = usable(
                    worktree::registered(donors@),
                    target@,
                    restricted,
                    answers_view(answers),
                );
                &&& #[trigger] were_asked(
                    platform,
                    worktree::registered(donors@),
                    target@,
                    answers,
                )
                &&& result is Ok <==> found is Ok
                &&& result matches Ok(list) ==> found == Ok::<Seq<int>, Failure>(numbers(list@))
                    && forall|k: int| 0 <= k < list@.len() ==> #[trigger] list@[k] < donors@.len()
                &&& result matches Err(error) ==> found == Err::<Seq<int>, Failure>(error@)
            },
{
    let ghost all = worktree::registered(donors@);
    let mut answers: Vec<Result<(), Error>> = Vec::new();
    for i in 0..donors.len()
        invariant
            all == worktree::registered(donors@),
            answers@.len() == i,
            forall|k: int|
                0 <= k < i ==> paths::components(all[k].path) == paths::components(target@)
                    || was_asked(platform, all[k].path, target@, #[trigger] answers@[k]),
    {
        let ghost before = answers@;
        assert(all[i as int].path == donors@[i as int].path@);
        let answer = if paths::same(donors[i].path.as_slice(), target) {
            Ok(())
        } else {
            let asked = platform.validate(donors[i].path.as_slice(), target);
            assert(was_asked(platform, all[i as int].path, target@, asked));
            asked
        };
        answers.push(answer);
        assert forall|k: int| 0 <= k <= i implies paths::components(all[k].path)
            == paths::components(target@) || was_asked(
            platform,
            all[k].path,
            target@,
            #[trigger] answers@[k],
        ) by {
            if k < i {
                assert(answers@[k] == before[k]);
            }
        }
    }
    assert(were_asked(platform, all, target@, answers@));
    usable_donors(donors, target, restricted, answers)
}

/// The key that donors are ordered by: those at the wanted commit first, then by path.
pub open spec fn donor_key(donor: Registered, commit: Seq<char>) -> Seq<Seq<u8>> {
    seq![commit_part(donor, commit)] + paths::components(donor.path)
}

/// The donors at `positions`, ordered.
pub open spec fn ranked(donors: Seq<Registered>, positions: Seq<int>, commit: Seq<char>) -> Seq<
    int,
> {
    let keys = Seq::new(positions.len(), |i: int| donor_key(donors[positions[i]], commit));
    order::arranged(positions, order::sorted_order(keys))
}

/// One donor is tried before another: the one at the wanted commit, or of two
/// that are alike in this the one whose path comes first.
pub open spec fn goes_before(one: Registered, other: Registered, commit: Seq<char>) -> bool {
    ||| one.head == commit && other.head != commit
    ||| (one.head == commit) == (other.head == commit) && !order::key_less(
        paths::components(other.path),
        paths::components(one.path),
    )
}

/// Each of these donors is tried before those after it.
pub open spec fn in_turn(donors: Seq<Registered>, commit: Seq<char>, list: Seq<int>) -> bool {
    forall|a: int, b: int|
        0 <= a < b < list.len() ==> goes_before(
            donors[#[trigger] list[a]],
            donors[#[trigger] list[b]],
            commit,
        )
}

/// Ranking loses no donor and adds none. Those at the wanted commit come first,
/// and among those that are alike in this the order is that of their paths.
pub proof fn ranking_prefers_commit_then_path(
    donors: Seq<Registered>,
    positions: Seq<int>,
    commit: Seq<char>,
)
    requires
        positions.len() <= usize::MAX,
    ensures
        ranked(donors, positions, commit).len() == positions.len(),
        ranked(donors, positions, commit).to_multiset() == positions.to_multiset(),
        in_turn(donors, commit, ranked(donors, positions, commit)),
{
    let keys = Seq::new(positions.len(), |i: int| donor_key(donors[positions[i]], commit));
    let sorted = order::sorted_order(keys);
    let list = ranked(donors, positions, commit);
    order::sorted_order_is_order(keys);
    order::order_rearranges(keys, keys.len() as int, sorted, positions);
    assert(positions.take(positions.len() as int) =~= positions);
    assert forall|a: int, b: int| 0 <= a < b < list.len() implies goes_before(
        donors[#[trigger] list[a]],
        donors[#[trigger] list[b]],
        commit,
    ) by {
        let one = donors[list[a]];
        let other = donors[list[b]];
        order::arranged_keys_ascend(keys, sorted, a, b);
        assert(order::arranged(keys, sorted)[a] == donor_key(one, commit));
        assert(order::arranged(keys, sorted)[b] == donor_key(other, commit));
        lemma_flags();
        order::lemma_first_part(
            commit_part(other, commit),
            paths::components(other.path),
            commit_part(one, commit),
            paths::components(one.path),
        );
    }
}

/// The part of a key that puts those at the wanted commit first.
pub open spec fn commit_part(donor: Registered, commit: Seq<char>) -> Seq<u8> {
    if donor.head == commit {
        seq![0u8]
    } else {
        seq![1u8]
    }
}

pub(crate) proof fn lemma_flags()
    ensures
        order::bytes_less(seq![0u8], seq![1u8]),
        !order::bytes_less(seq![1u8], seq![0u8]),
        seq![0u8] != seq![1u8],
{
    assert(seq![0u8][0] != seq![1u8][0]);
}

pub(crate) fn flag(differs: bool) -> (part: Vec<u8>)
    ensures
        part@ == (if differs {
            seq![1u8]
        } else {
            seq![0u8]
        }),
{
    let mut part: Vec<u8> = Vec::new();
    if differs {
        part.push(1);
        assert(part@ =~= seq![1u8]);
    } else {
        part.push(0);
        assert(part@ =~= seq![0u8]);
    }
    part
}

pub(crate) fn append_components(key: &mut Vec<Vec<u8>>, path: &[u8])
    ensures
        bytes::views(final(key)@) == bytes::views(old(key)@) + paths::components(path@),
{
    let ghost start = bytes::views(key@);
    let parts = paths::split_path(path);
    let ghost all = paths::components(path@);
    assert(start + all.take(0) =~= start);
    for i in 0..parts.len()
        invariant
            all == bytes::views(parts@),
            bytes::views(key@) == start + all.take(i as int),
    {
        let ghost before = bytes::views(key@);
        let part = bytes::copy(parts[i].as_slice());
        let ghost p = part@;
        key.push(part);
        assert(bytes::views(key@) =~= before.push(p));
        assert(before.push(p) =~= start + all.take(i + 1));
    }
    assert(all.take(all.len() as int) =~= all);
}

/// The donors at `positions`, those at the wanted commit first, then by path.
pub fn rank_donors(donors: &Vec<Worktree>, positions: &Vec<usize>, commit: &str) -> (result: Vec<
    usize,
>)
    requires
        forall|k: int| 0 <= k < positions@.len() ==> #[trigger] positions@[k] < donors@.len(),
    ensures
        numbers(result@) == ranked(
            worktree::registered(donors@),
            numbers(positions@),
            commit@,
        ),
        forall|k: int| 0 <= k < result@.len() ==> #[trigger] result@[k] < donors@.len(),
        result@.len() == positions@.len(),
        numbers(result@).to_multiset() == numbers(positions@).to_multiset(),
        in_turn(worktree::registered(donors@), commit@, numbers(result@)),
{
    let ghost all = worktree::registered(donors@);
    let ghost at = numbers(positions@);
    let ghost wanted = Seq::new(at.len(), |i: int| donor_key(all[at[i]], commit@));
    let mut keys: Vec<Vec<Vec<u8>>> = Vec::new();
    for i in 0..positions.len()
        invariant
            all == worktree::registered(donors@),
            at == numbers(positions@),
            wanted == Seq::new(at.len(), |i: int| donor_key(all[at[i]], commit@)),
            forall|k: int| 0 <= k < positions@.len() ==> #[trigger] positions@[k] < donors@.len(),
            order::key_views(keys@) == wanted.take(i as int),
    {
        let donor = &donors[positions[i]];
        assert(all[at[i as int]] == donor@);
        let mut key: Vec<Vec<u8>> = Vec::new();
        key.push(flag(!text::same(donor.head.as_str(), commit)));
        assert(bytes::views(key@) =~= seq![key@[0]@]);
        append_components(&mut key, donor.path.as_slice());
        let ghost before = order::key_views(keys@);
        let ghost k = bytes::views(key@);
        keys.push(key);
        assert(order::key_views(keys@) =~= before.push(k));
        assert(k =~= wanted[i as int]);
        assert(wanted.take(i + 1) =~= before.push(k));
    }
    assert(wanted.take(wanted.len() as int) =~= wanted);
    let sorted = order::stable_order(&keys);
    let mut result: Vec<usize> = Vec::new();
    for i in 0..sorted.len()
        invariant
            sorted@ == order::sorted_order(wanted),
            sorted@.len() == positions@.len(),
            forall|k: int| 0 <= k < sorted@.len() ==> 0 <= #[trigger] sorted@[k] < positions@.len(),
            forall|k: int| 0 <= k < positions@.len() ==> #[trigger] positions@[k] < donors@.len(),
            forall|k: int| 0 <= k < result@.len() ==> #[trigger] result@[k] < donors@.len(),
            result@.len() == i,
            forall|k: int|
                0 <= k < i ==> #[trigger] result@[k] == positions@[sorted@[k] as int],
    {
        result.push(positions[sorted[i]]);
    }
    assert(numbers(result@) =~= ranked(all, at, commit@));
    proof {
        assert(at.len() == positions.len());
        ranking_prefers_commit_then_path(all, at, commit@);
    }
    result
}

/// What a donor holds: the entries of its tree by path, the last of each path.
pub open spec fn index_of_entries(entries: Seq<git::Entry>) -> Map<Seq<Seq<u8>>, usize>
    decreases entries.len(),
{
    if entries.len() == 0 {
        Map::empty()
    } else {
        index_of_entries(entries.drop_last()).insert(
            paths::components(entries.last().path),
            (entries.len() - 1) as usize,
        )
    }
}

/// A donor and what it holds.
pub struct Inventory {
    donor: usize,
    entries: Vec<TreeEntry>,
    index: PathMap<usize>,
}

impl Inventory {
    pub closed spec fn donor(&self) -> usize {
        self.donor
    }

    pub closed spec fn entries(&self) -> Seq<git::Entry> {
        git::entries(self.entries@)
    }

    /// The index leads to the entries of the donor.
    pub closed spec fn wf(&self) -> bool {
        &&& self.index.wf()
        &&& self.index@ == index_of_entries(git::entries(self.entries@))
        &&& self.entries@.len() <= usize::MAX
    }

    /// The donor holds this object as a regular file at this path.
    pub open spec fn offers(&self, path: Seq<u8>, oid: Seq<char>) -> bool {
        let index = index_of_entries(self.entries());
        let key = paths::components(path);
        &&& index.contains_key(key)
        &&& self.entries()[index[key] as int].regular
        &&& self.entries()[index[key] as int].oid == oid
    }

    /// The inventory of the donor at a position, from the listing of its tree.
    pub fn read(donor: usize, listing: &[u8]) -> (result: Result<Inventory, Error>)
        ensures
            ({
                let read = git::records_entries(git::nul_records(listing@));
                &&& result is Ok <==> read is Ok
                &&& result matches Ok(inventory) ==> inventory.wf() && inventory.donor() == donor
                    && read == Ok::<Seq<git::Entry>, Failure>(inventory.entries())
                &&& result matches Err(error) ==> read == Err::<Seq<git::Entry>, Failure>(error@)
            }),
    {
        let entries = git::parse_tree(listing)?;
        let ghost all = git::entries(entries@);
        let mut index: PathMap<usize> = PathMap::new();
        assert(all.take(0) =~= Seq::<git::Entry>::empty());
        for i in 0..entries.len()
            invariant
                all == git::entries(entries@),
                index.wf(),
                index@ == index_of_entries(all.take(i as int)),
        {
            assert(all.take(i + 1).drop_last() =~= all.take(i as int));
            assert(all.take(i + 1).last() == entries@[i as int]@);
            index.insert(entries[i].path.as_slice(), i);
        }
        assert(all.take(all.len() as int) =~= all);
        Ok(Inventory { donor, entries, index })
    }

    pub fn donor_position(&self) -> (donor: usize)
        ensures
            donor == self.donor(),
    {
        self.donor
    }

    /// Whether the donor holds this object as a regular file at this path.
    pub fn holds(&self, path: &[u8], oid: &str) -> (yes: bool)
        requires
            self.wf(),
        ensures
            yes == self.offers(path@, oid@),
    {
        match self.index.get(path) {
            Some(i) => {
                proof {
                    lemma_index_bound(self.entries(), paths::components(path@));
                }
                let entry = &self.entries[i];
                assert(self.entries()[i as int] == entry@);
                entry.regular && text::same(entry.oid.as_str(), oid)
            },
            None => false,
        }
    }
}

/// The index leads to an entry of that path.
pub proof fn lemma_index_bound(entries: Seq<git::Entry>, key: Seq<Seq<u8>>)
    requires
        entries.len() <= usize::MAX,
        index_of_entries(entries).contains_key(key),
    ensures
        index_of_entries(entries)[key] < entries.len(),
        paths::components(entries[index_of_entries(entries)[key] as int].path) == key,
    decreases entries.len(),
{
    if entries.len() > 0 && paths::components(entries.last().path) != key {
        lemma_index_bound(entries.drop_last(), key);
        let i = index_of_entries(entries)[key] as int;
        assert(entries[i] == entries.drop_last()[i]);
    }
}

/// The donors of the inventories at these positions.
pub open spec fn donors_at(inventories: Seq<Inventory>, at: Seq<int>) -> Seq<int> {
    Seq::new(at.len(), |i: int| inventories[at[i]].donor() as int)
}

/// The donors of the inventories.
pub open spec fn donors_of(inventories: Seq<Inventory>) -> Seq<int> {
    Seq::new(inventories.len(), |i: int| inventories[i].donor() as int)
}

proof fn lemma_index_of_entries(entries: Seq<git::Entry>, key: Seq<Seq<u8>>)
    requires
        entries.len() <= usize::MAX,
    ensures
        ({
            let index = index_of_entries(entries);
            &&& index.contains_key(key) <==> exists|e: int|
                0 <= e < entries.len() && paths::components((#[trigger] entries[e]).path) == key
            &&& index.contains_key(key) ==> {
                let at = index[key] as int;
                &&& 0 <= at < entries.len()
                &&& paths::components(entries[at].path) == key
                &&& forall|e: int|
                    at < e < entries.len() ==> paths::components((#[trigger] entries[e]).path)
                        != key
            }
        }),
    decreases entries.len(),
{
    if entries.len() > 0 {
        let init = entries.drop_last();
        let n = entries.len() - 1;
        lemma_index_of_entries(init, key);
        let before = index_of_entries(init);
        let index = index_of_entries(entries);
        assert(entries.last() == entries[n]);
        if before.contains_key(key) {
            let e = choose|e: int|
                0 <= e < init.len() && paths::components((#[trigger] init[e]).path) == key;
            assert(entries[e] == init[e]);
        }
        if exists|e: int|
            0 <= e < entries.len() && paths::components((#[trigger] entries[e]).path) == key {
            let e = choose|e: int|
                0 <= e < entries.len() && paths::components((#[trigger] entries[e]).path) == key;
            if e < n {
                assert(init[e] == entries[e]);
            }
        }
        if paths::components(entries[n].path) != key && before.contains_key(key) {
            let at = before[key] as int;
            assert(init[at] == entries[at]);
            assert forall|e: int| at < e < entries.len() implies paths::components(
                (#[trigger] entries[e]).path,
            ) != key by {
                if e < n {
                    assert(init[e] == entries[e]);
                }
            }
        }
    }
}

/// A donor offers an object at a path where the last entry of its tree with
/// that path is a regular file with that object.
pub proof fn the_last_entry_of_a_path_counts(inventory: Inventory, path: Seq<u8>, oid: Seq<char>)
    requires
        inventory.entries().len() <= usize::MAX,
    ensures
        inventory.offers(path, oid) <==> exists|e: int|
            0 <= e < inventory.entries().len() && (#[trigger] inventory.entries()[e]).regular
                && inventory.entries()[e].oid == oid && paths::components(
                inventory.entries()[e].path,
            ) == paths::components(path) && forall|j: int|
                e < j < inventory.entries().len() ==> paths::components(
                    (#[trigger] inventory.entries()[j]).path,
                ) != paths::components(path),
{
    let entries = inventory.entries();
    let key = paths::components(path);
    lemma_index_of_entries(entries, key);
    let index = index_of_entries(entries);
    if inventory.offers(path, oid) {
        let at = index[key] as int;
        assert(entries[at].regular && entries[at].oid == oid);
    }
    if exists|e: int|
        0 <= e < entries.len() && (#[trigger] entries[e]).regular && entries[e].oid == oid
            && paths::components(entries[e].path) == key && forall|j: int|
            e < j < entries.len() ==> paths::components((#[trigger] entries[j]).path) != key {
        let e = choose|e: int|
            0 <= e < entries.len() && (#[trigger] entries[e]).regular && entries[e].oid == oid
                && paths::components(entries[e].path) == key && forall|j: int|
                e < j < entries.len() ==> paths::components((#[trigger] entries[j]).path) != key;
        let at = index[key] as int;
        if at < e {
            assert(paths::components(entries[e].path) != key);
        }
        if e < at {
            assert(paths::components(entries[at].path) != key);
        }
        assert(at == e);
    }
}

/// Without a restriction the donors are all that were found valid, but for the
/// target itself. With one, every donor has to be valid and none may be the
/// target. Either way they stay in order.
pub proof fn valid_donors_are_used(
    donors: Seq<Registered>,
    target: Seq<u8>,
    restricted: bool,
    answers: Seq<Result<(), Failure>>,
)
    requires
        donors.len() <= answers.len(),
    ensures
        restricted ==> (usable(donors, target, restricted, answers) is Ok <==> forall|i: int|
            0 <= i < donors.len() ==> paths::components((#[trigger] donors[i]).path)
                != paths::components(target) && answers[i] is Ok),
        match usable(donors, target, restricted, answers) {
            Ok(list) => {
                &&& forall|i: int|
                    list.contains(i) <==> 0 <= i < donors.len() && paths::components(donors[i].path)
                        != paths::components(target) && answers[i] is Ok
                &&& forall|a: int, b: int| 0 <= a < b < list.len() ==> list[a] < list[b]
            },
            Err(failure) => restricted && exists|i: int|
                0 <= i < donors.len() && failure == (if paths::components(
                    (#[trigger] donors[i]).path,
                ) == paths::components(target) {
                    Failure::Message("cannot compact a worktree against itself"@)
                } else {
                    answers[i]->Err_0
                }) && (paths::components(donors[i].path) == paths::components(target) || answers[i]
                    is Err) && forall|j: int|
                    0 <= j < i ==> paths::components((#[trigger] donors[j]).path)
                        != paths::components(target) && answers[j] is Ok,
        },
    decreases donors.len(),
{
    if donors.len() > 0 {
        let init = donors.drop_last();
        let n = donors.len() - 1;
        valid_donors_are_used(init, target, restricted, answers);
        assert(forall|i: int| 0 <= i < n ==> #[trigger] init[i] == donors[i]);
        match usable(init, target, restricted, answers) {
            Err(failure) => {
                let i = choose|i: int|
                    0 <= i < init.len() && failure == (if paths::components(
                        (#[trigger] init[i]).path,
                    ) == paths::components(target) {
                        Failure::Message("cannot compact a worktree against itself"@)
                    } else {
                        answers[i]->Err_0
                    }) && (paths::components(init[i].path) == paths::components(target)
                        || answers[i] is Err) && forall|j: int|
                        0 <= j < i ==> paths::components((#[trigger] init[j]).path)
                            != paths::components(target) && answers[j] is Ok;
                assert(donors[i] == init[i]);
                assert forall|j: int| 0 <= j < i implies paths::components(
                    (#[trigger] donors[j]).path,
                ) != paths::components(target) && answers[j] is Ok by {
                    assert(init[j] == donors[j]);
                }
            },
            Ok(before) => {
                let valid = paths::components(donors[n].path) != paths::components(target)
                    && answers[n] is Ok;
                assert forall|j: int| 0 <= j < n && restricted implies paths::components(
                    (#[trigger] donors[j]).path,
                ) != paths::components(target) && answers[j] is Ok by {
                    assert(init[j] == donors[j]);
                }
                assert forall|k: int| 0 <= k < before.len() implies 0 <= #[trigger] before[k]
                    < n by {
                    assert(before.contains(before[k]));
                }
                if let Ok(list) = usable(donors, target, restricted, answers) {
                    assert(list == (if valid {
                        before.push(n)
                    } else {
                        before
                    }));
                    assert forall|i: int|
                        list.contains(i) <==> 0 <= i < donors.len() && paths::components(
                            donors[i].path,
                        ) != paths::components(target) && answers[i] is Ok by {
                        if list.contains(i) {
                            let k = choose|k: int| 0 <= k < list.len() && list[k] == i;
                            if k < before.len() {
                                assert(before.contains(i));
                                assert(init[i] == donors[i]);
                            }
                        }
                        if 0 <= i < n {
                            assert(init[i] == donors[i]);
                            if before.contains(i) {
                                let k = choose|k: int| 0 <= k < before.len() && before[k] == i;
                                assert(list[k] == i);
                            }
                        }
                        if i == n && valid {
                            assert(list[before.len() as int] == n);
                        }
                    }
                }
            },
        }
    }
}

/// Of two donors, the one at the wanted commit is tried first; where both are at
/// it or neither is, the one whose path does not come after the other's. None is
/// lost.
pub proof fn donors_are_tried_in_turn(
    donors: Seq<Registered>,
    positions: Seq<int>,
    commit: Seq<char>,
    a: int,
    b: int,
)
    requires
        positions.len() <= usize::MAX,
        0 <= a < b < positions.len(),
    ensures
        ({
            let list = ranked(donors, positions, commit);
            let one = donors[list[a]];
            let other = donors[list[b]];
            &&& list.to_multiset() == positions.to_multiset()
            &&& other.head == commit ==> one.head == commit
            &&& (one.head == commit) == (other.head == commit) ==> !order::key_less(
                paths::components(other.path),
                paths::components(one.path),
            )
        }),
{
    ranking_prefers_commit_then_path(donors, positions, commit);
    let list = ranked(donors, positions, commit);
    assert(goes_before(donors[list[a]], donors[list[b]], commit));
}

/// Every donor but the target itself is asked about, with the donor's path and
/// the target's.
pub proof fn donors_are_asked_about_the_target<P: ClonePlatform>(
    platform: &P,
    donors: Seq<Registered>,
    target: Seq<u8>,
    answers: Seq<Result<(), Error>>,
    i: int,
)
    requires
        were_asked(platform, donors, target, answers),
        0 <= i < donors.len(),
        paths::components(donors[i].path) != paths::components(target),
    ensures
        answers.len() == donors.len(),
        exists|s: &[u8], t: &[u8]|
            s@ == donors[i].path && t@ == target && #[trigger] call_ensures(
                P::validate,
                (platform, s, t),
                answers[i],
            ),
{
    assert(was_asked(platform, donors[i].path, target, answers[i]));
}

} // verus!
