//! A map from paths to values. Two texts of one path are one key.
use crate::bytes;
use crate::order;
use crate::order::Rank;
use crate::paths;
use vstd::prelude::*;

verus! {

/// Values by path, kept in path order.
pub struct PathMap<V> {
    keys: Vec<Vec<Vec<u8>>>,
    values: Vec<V>,
}

impl<V: Copy> PathMap<V> {
    /// One value for each key, and the keys strictly ascending.
    pub closed spec fn wf(&self) -> bool {
        let keys = order::key_views(self.keys@);
        &&& self.keys@.len() == self.values@.len()
        &&& forall|i: int, j: int|
            0 <= i < j < keys.len() ==> order::key_less(#[trigger] keys[i], #[trigger] keys[j])
    }

    closed spec fn slot(&self, key: Seq<Seq<u8>>) -> int {
        choose|i: int| 0 <= i < self.keys@.len() && order::key_views(self.keys@)[i] == key
    }

    /// The value of each path that has one, by the path's components.
    pub closed spec fn view(&self) -> Map<Seq<Seq<u8>>, V> {
        Map::new(
            |key: Seq<Seq<u8>>| order::key_views(self.keys@).contains(key),
            |key: Seq<Seq<u8>>| self.values@[self.slot(key)],
        )
    }

    proof fn lemma_slot(&self, i: int)
        requires
            self.wf(),
            0 <= i < self.keys@.len(),
        ensures
            self.slot(order::key_views(self.keys@)[i]) == i,
            self@.contains_key(order::key_views(self.keys@)[i]),
            self@[order::key_views(self.keys@)[i]] == self.values@[i],
    {
        let keys = order::key_views(self.keys@);
        let s = self.slot(keys[i]);
        assert(0 <= s < keys.len() && keys[s] == keys[i]);
        order::key_less_irreflexive(keys[i]);
        assert(keys.contains(keys[i]));
    }

    pub fn new() -> (map: Self)
        ensures
            map.wf(),
            map@ == Map::<Seq<Seq<u8>>, V>::empty(),
    {
        let map = PathMap { keys: Vec::new(), values: Vec::new() };
        assert(map@ =~= Map::<Seq<Seq<u8>>, V>::empty());
        map
    }

    /// The position of the first key that is not less than `key`.
    fn lower_bound(&self, key: &Vec<Vec<u8>>) -> (at: usize)
        requires
            self.wf(),
        ensures
            at <= self.keys@.len(),
            forall|i: int|
                0 <= i < at ==> order::key_less(
                    #[trigger] order::key_views(self.keys@)[i],
                    bytes::views(key@),
                ),
            forall|i: int|
                at <= i < self.keys@.len() ==> !order::key_less(
                    #[trigger] order::key_views(self.keys@)[i],
                    bytes::views(key@),
                ),
    {
        let ghost keys = order::key_views(self.keys@);
        let ghost k = bytes::views(key@);
        let mut low: usize = 0;
        let mut high: usize = self.keys.len();
        while low < high
            invariant
                self.wf(),
                keys == order::key_views(self.keys@),
                k == bytes::views(key@),
                low <= high <= keys.len(),
                forall|i: int| 0 <= i < low ==> order::key_less(#[trigger] keys[i], k),
                forall|i: int| high <= i < keys.len() ==> !order::key_less(#[trigger] keys[i], k),
            decreases high - low,
        {
            let mid: usize = low + (high - low) / 2;
            let rank = order::key_rank(&self.keys[mid], key);
            assert(keys[mid as int] == bytes::views(self.keys@[mid as int]@));
            if let Rank::Before = rank {
                assert forall|i: int| 0 <= i <= mid implies order::key_less(#[trigger] keys[i], k) by {
                    if i < mid {
                        order::key_less_transitive(keys[i], keys[mid as int], k);
                    }
                }
                low = mid + 1;
            } else {
                assert forall|i: int| mid <= i < keys.len() implies !order::key_less(
                    #[trigger] keys[i],
                    k,
                ) by {
                    if i > mid && order::key_less(keys[i], k) {
                        order::key_less_transitive(keys[mid as int], keys[i], k);
                    }
                }
                high = mid;
            }
        }
        low
    }

    /// The value of the path with these components.
    pub fn find(&self, key: &Vec<Vec<u8>>) -> (value: Option<V>)
        requires
            self.wf(),
        ensures
            value == (if self@.contains_key(bytes::views(key@)) {
                Some(self@[bytes::views(key@)])
            } else {
                None
            }),
    {
        let at = self.lower_bound(key);
        let ghost keys = order::key_views(self.keys@);
        let ghost k = bytes::views(key@);
        if at < self.keys.len() {
            let rank = order::key_rank(&self.keys[at], key);
            assert(keys[at as int] == bytes::views(self.keys@[at as int]@));
            if let Rank::Same = rank {
                proof {
                    self.lemma_slot(at as int);
                }
                return Some(self.values[at]);
            }
        }
        proof {
            if keys.contains(k) {
                let i = choose|i: int| 0 <= i < keys.len() && keys[i] == k;
                order::key_less_irreflexive(k);
                assert(i >= at);
                if i > at {
                    assert(order::key_less(keys[at as int], keys[i]));
                }
            }
        }
        None
    }

    /// The value of `path`.
    pub fn get(&self, path: &[u8]) -> (value: Option<V>)
        requires
            self.wf(),
        ensures
            value == (if self@.contains_key(paths::components(path@)) {
                Some(self@[paths::components(path@)])
            } else {
                None
            }),
    {
        let key = paths::split_path(path);
        self.find(&key)
    }

    /// Gives the path with these components a value, in place of one it had.
    pub fn put(&mut self, key: Vec<Vec<u8>>, value: V)
        requires
            old(self).wf(),
        ensures
            final(self).wf(),
            final(self)@ == old(self)@.insert(bytes::views(key@), value),
    {
        let at = self.lower_bound(&key);
        let ghost before = *self;
        let ghost keys = order::key_views(self.keys@);
        let ghost k = bytes::views(key@);
        if at < self.keys.len() {
            let rank = order::key_rank(&self.keys[at], &key);
            assert(keys[at as int] == bytes::views(self.keys@[at as int]@));
            if let Rank::Same = rank {
                self.values.set(at, value);
                proof {
                    let after = *self;
                    assert(order::key_views(after.keys@) == keys);
                    assert forall|other: Seq<Seq<u8>>| keys.contains(other) implies after@[other]
                        == before@.insert(k, value)[other] by {
                        let i = choose|i: int| 0 <= i < keys.len() && keys[i] == other;
                        after.lemma_slot(i);
                        before.lemma_slot(i);
                        if i != at {
                            if i < at {
                                assert(order::key_less(keys[i], keys[at as int]));
                            } else {
                                assert(order::key_less(keys[at as int], keys[i]));
                            }
                            order::key_less_irreflexive(k);
                        }
                    }
                    assert(keys.contains(keys[at as int]));
                    assert(after@ =~= before@.insert(k, value));
                }
                return;
            }
        }
        self.keys.insert(at, key);
        self.values.insert(at, value);
        proof {
            let after = *self;
            let now = order::key_views(after.keys@);
            assert(now =~= keys.insert(at as int, k));
            if at < keys.len() {
                order::key_less_total(k, keys[at as int]);
            }
            assert forall|i: int, j: int| 0 <= i < j < now.len() implies order::key_less(
                #[trigger] now[i],
                #[trigger] now[j],
            ) by {
                if i < at && j > at {
                    assert(now[i] == keys[i] && now[j] == keys[j - 1]);
                } else if i < at && j == at {
                    assert(now[i] == keys[i]);
                } else if i == at {
                    assert(now[j] == keys[j - 1]);
                    if j - 1 > at {
                        assert(order::key_less(keys[at as int], keys[j - 1]));
                        order::key_less_transitive(k, keys[at as int], keys[j - 1]);
                    }
                } else if i > at {
                    assert(now[i] == keys[i - 1] && now[j] == keys[j - 1]);
                } else {
                    assert(now[i] == keys[i] && now[j] == keys[j]);
                }
            }
            assert(after.wf());
            assert(now[at as int] == k);
            after.lemma_slot(at as int);
            assert forall|other: Seq<Seq<u8>>| now.contains(other) <==> (keys.contains(other)
                || other == k) by {
                if now.contains(other) {
                    let i = choose|i: int| 0 <= i < now.len() && now[i] == other;
                    if i < at {
                        assert(keys[i] == other);
                    } else if i > at {
                        assert(keys[i - 1] == other);
                    }
                }
                if keys.contains(other) {
                    let i = choose|i: int| 0 <= i < keys.len() && keys[i] == other;
                    if i < at {
                        assert(now[i] == other);
                    } else {
                        assert(now[i + 1] == other);
                    }
                }
            }
            assert forall|other: Seq<Seq<u8>>| now.contains(other) implies after@[other]
                == before@.insert(k, value)[other] by {
                let i = choose|i: int| 0 <= i < now.len() && now[i] == other;
                after.lemma_slot(i);
                order::key_less_irreflexive(k);
                if i < at {
                    assert(keys[i] == other);
                    before.lemma_slot(i);
                } else if i > at {
                    assert(keys[i - 1] == other);
                    before.lemma_slot(i - 1);
                    assert(order::key_less(now[at as int], now[i]));
                }
            }
            assert(after@ =~= before@.insert(k, value));
        }
    }

    /// Gives `path` a value, in place of one it had.
    pub fn insert(&mut self, path: &[u8], value: V)
        requires
            old(self).wf(),
        ensures
            final(self).wf(),
            final(self)@ == old(self)@.insert(paths::components(path@), value),
    {
        let key = paths::split_path(path);
        self.put(key, value);
    }

    /// How many paths have a value.
    pub fn len(&self) -> (count: usize)
        requires
            self.wf(),
        ensures
            self@.dom().finite(),
            count == self@.dom().len(),
    {
        proof {
            let keys = order::key_views(self.keys@);
            assert(keys.no_duplicates()) by {
                assert forall|i: int, j: int|
                    0 <= i < keys.len() && 0 <= j < keys.len() && i != j implies keys[i] != keys[j] by {
                    order::key_less_irreflexive(keys[i]);
                    if i < j {
                        assert(order::key_less(keys[i], keys[j]));
                    } else {
                        assert(order::key_less(keys[j], keys[i]));
                    }
                }
            }
            keys.unique_seq_to_set();
            assert(self@.dom() =~= keys.to_set());
        }
        self.keys.len()
    }

    pub fn contains(&self, path: &[u8]) -> (yes: bool)
        requires
            self.wf(),
        ensures
            yes == self@.contains_key(paths::components(path@)),
    {
        self.get(path).is_some()
    }
}

/// The set of components of each path listed.
pub open spec fn listed(items: Seq<Seq<u8>>) -> Set<Seq<Seq<u8>>>
    decreases items.len(),
{
    if items.len() == 0 {
        Set::empty()
    } else {
        listed(items.drop_last()).insert(paths::components(items.last()))
    }
}

/// The paths of `items` as a set.
pub fn path_set(items: &Vec<Vec<u8>>) -> (set: PathMap<bool>)
    ensures
        set.wf(),
        set@.dom() == listed(bytes::views(items@)),
{
    let mut set: PathMap<bool> = PathMap::new();
    let ghost all = bytes::views(items@);
    assert(all.take(0) =~= Seq::<Seq<u8>>::empty());
    assert(set@.dom() =~= listed(all.take(0)));
    for i in 0..items.len()
        invariant
            all == bytes::views(items@),
            set.wf(),
            set@.dom() == listed(all.take(i as int)),
    {
        set.insert(items[i].as_slice(), true);
        assert(all.take(i + 1).drop_last() =~= all.take(i as int));
        assert(set@.dom() =~= listed(all.take(i + 1)));
    }
    assert(all.take(all.len() as int) =~= all);
    set
}

/// The set of listed paths holds just these.
pub proof fn listed_paths_are_in_the_set(items: Seq<Seq<u8>>, key: Seq<Seq<u8>>)
    ensures
        listed(items).contains(key) <==> exists|i: int|
            0 <= i < items.len() && paths::components(#[trigger] items[i]) == key,
    decreases items.len(),
{
    if items.len() > 0 {
        let init = items.drop_last();
        listed_paths_are_in_the_set(init, key);
        if listed(init).contains(key) {
            let i = choose|i: int|
                0 <= i < init.len() && paths::components(#[trigger] init[i]) == key;
            assert(items[i] == init[i]);
        }
        if paths::components(items.last()) == key {
            assert(paths::components(items[items.len() - 1]) == key);
        }
        if exists|i: int| 0 <= i < items.len() && paths::components(#[trigger] items[i]) == key {
            let i = choose|i: int|
                0 <= i < items.len() && paths::components(#[trigger] items[i]) == key;
            if i < init.len() {
                assert(init[i] == items[i]);
            }
        }
    }
}

} // verus!
