//! Lexicographic order of byte strings and of keys made of several byte
//! strings, and the stable order of a list of keys.
use crate::bytes;
use vstd::prelude::*;

verus! {

/// How one value stands to another.
#[derive(Clone, Copy, Debug, PartialEq, Eq, Structural)]
pub enum Rank {
    Before,
    Same,
    After,
}

pub open spec fn bytes_less(a: Seq<u8>, b: Seq<u8>) -> bool
    decreases a.len(),
{
    if b.len() == 0 {
        false
    } else if a.len() == 0 {
        true
    } else if a[0] != b[0] {
        a[0] < b[0]
    } else {
        bytes_less(a.skip(1), b.skip(1))
    }
}

pub open spec fn key_less(a: Seq<Seq<u8>>, b: Seq<Seq<u8>>) -> bool
    decreases a.len(),
{
    if b.len() == 0 {
        false
    } else if a.len() == 0 {
        true
    } else if a[0] != b[0] {
        bytes_less(a[0], b[0])
    } else {
        key_less(a.skip(1), b.skip(1))
    }
}

/// What a list of keys holds.
pub open spec fn key_views(keys: Seq<Vec<Vec<u8>>>) -> Seq<Seq<Seq<u8>>> {
    Seq::new(keys.len(), |i: int| bytes::views(keys[i]@))
}

/// Item `i` comes before item `j`: by key, and by position where the keys are equal.
pub open spec fn precedes(keys: Seq<Seq<Seq<u8>>>, i: int, j: int) -> bool {
    key_less(keys[i], keys[j]) || (keys[i] == keys[j] && i < j)
}

/// `order` lists the positions below `n`, each of them once, so that each
/// precedes those after it.
pub open spec fn is_order(keys: Seq<Seq<Seq<u8>>>, n: int, order: Seq<usize>) -> bool {
    &&& order.len() == n
    &&& forall|a: int| 0 <= a < order.len() ==> 0 <= #[trigger] order[a] < n
    &&& forall|a: int, b: int|
        0 <= a < b < order.len() ==> precedes(keys, #[trigger] order[a] as int, #[trigger] order[b] as int)
    &&& forall|i: usize| 0 <= i < n ==> #[trigger] order.contains(i)
}

/// The stable ascending order of `keys`.
pub open spec fn sorted_order(keys: Seq<Seq<Seq<u8>>>) -> Seq<usize> {
    choose|order: Seq<usize>| is_order(keys, keys.len() as int, order)
}

pub proof fn bytes_less_irreflexive(a: Seq<u8>)
    ensures
        !bytes_less(a, a),
    decreases a.len(),
{
    if a.len() > 0 {
        bytes_less_irreflexive(a.skip(1));
    }
}

pub proof fn bytes_less_transitive(a: Seq<u8>, b: Seq<u8>, c: Seq<u8>)
    requires
        bytes_less(a, b),
        bytes_less(b, c),
    ensures
        bytes_less(a, c),
    decreases a.len(),
{
    if a.len() > 0 && a[0] == b[0] && b[0] == c[0] {
        bytes_less_transitive(a.skip(1), b.skip(1), c.skip(1));
    }
}

/// Of two different byte strings one is less.
pub proof fn bytes_less_total(a: Seq<u8>, b: Seq<u8>)
    ensures
        a == b || bytes_less(a, b) || bytes_less(b, a),
    decreases a.len(),
{
    if a.len() > 0 && b.len() > 0 && a[0] == b[0] {
        bytes_less_total(a.skip(1), b.skip(1));
        if a.skip(1) == b.skip(1) {
            assert(a =~= seq![a[0]] + a.skip(1));
            assert(b =~= seq![b[0]] + b.skip(1));
        }
    } else if a.len() == 0 && b.len() == 0 {
        assert(a =~= b);
    }
}

pub proof fn key_less_irreflexive(a: Seq<Seq<u8>>)
    ensures
        !key_less(a, a),
    decreases a.len(),
{
    if a.len() > 0 {
        key_less_irreflexive(a.skip(1));
    }
}

pub proof fn key_less_transitive(a: Seq<Seq<u8>>, b: Seq<Seq<u8>>, c: Seq<Seq<u8>>)
    requires
        key_less(a, b),
        key_less(b, c),
    ensures
        key_less(a, c),
    decreases a.len(),
{
    if a.len() > 0 {
        if a[0] == b[0] && b[0] == c[0] {
            key_less_transitive(a.skip(1), b.skip(1), c.skip(1));
        } else if a[0] != b[0] && b[0] != c[0] {
            bytes_less_transitive(a[0], b[0], c[0]);
            bytes_less_irreflexive(a[0]);
        }
    }
}

/// Of two different keys one is less.
pub proof fn key_less_total(a: Seq<Seq<u8>>, b: Seq<Seq<u8>>)
    ensures
        a == b || key_less(a, b) || key_less(b, a),
    decreases a.len(),
{
    if a.len() > 0 && b.len() > 0 {
        if a[0] == b[0] {
            key_less_total(a.skip(1), b.skip(1));
            if a.skip(1) == b.skip(1) {
                assert(a =~= seq![a[0]] + a.skip(1));
                assert(b =~= seq![b[0]] + b.skip(1));
            }
        } else {
            bytes_less_total(a[0], b[0]);
        }
    } else if a.len() == 0 && b.len() == 0 {
        assert(a =~= b);
    }
}

/// No two positions precede each other.
pub proof fn precedes_asymmetric(keys: Seq<Seq<Seq<u8>>>, i: int, j: int)
    requires
        precedes(keys, i, j),
    ensures
        !precedes(keys, j, i),
        i != j,
{
    key_less_irreflexive(keys[i]);
    if key_less(keys[i], keys[j]) && key_less(keys[j], keys[i]) {
        key_less_transitive(keys[i], keys[j], keys[i]);
    }
}

/// Two lists that hold the same positions, each in the order of `precedes`, are equal.
proof fn lemma_ascending_unique(keys: Seq<Seq<Seq<u8>>>, a: Seq<usize>, b: Seq<usize>)
    requires
        forall|x: int, y: int|
            0 <= x < y < a.len() ==> precedes(keys, #[trigger] a[x] as int, #[trigger] a[y] as int),
        forall|x: int, y: int|
            0 <= x < y < b.len() ==> precedes(keys, #[trigger] b[x] as int, #[trigger] b[y] as int),
        forall|i: usize| #[trigger] a.contains(i) <==> b.contains(i),
    ensures
        a == b,
    decreases a.len(),
{
    if a.len() == 0 {
        if b.len() > 0 {
            assert(b.contains(b[0]));
            assert(a.contains(b[0]));
        }
        assert(a =~= b);
    } else {
        assert(a.contains(a[0]));
        let k = choose|k: int| 0 <= k < b.len() && b[k] == a[0];
        assert(b.contains(b[0]));
        assert(a.contains(b[0]));
        let m = choose|m: int| 0 <= m < a.len() && a[m] == b[0];
        if a[0] != b[0] {
            assert(precedes(keys, b[0] as int, b[k] as int));
            assert(precedes(keys, a[0] as int, a[m] as int));
            precedes_asymmetric(keys, a[0] as int, b[0] as int);
        }
        let ta = a.skip(1);
        let tb = b.skip(1);
        assert forall|i: usize| #[trigger] ta.contains(i) <==> tb.contains(i) by {
            if ta.contains(i) {
                let x = choose|x: int| 0 <= x < ta.len() && ta[x] == i;
                assert(a[x + 1] == i);
                precedes_asymmetric(keys, a[0] as int, a[x + 1] as int);
                assert(a.contains(i));
                let y = choose|y: int| 0 <= y < b.len() && b[y] == i;
                assert(tb[y - 1] == i);
            }
            if tb.contains(i) {
                let x = choose|x: int| 0 <= x < tb.len() && tb[x] == i;
                assert(b[x + 1] == i);
                precedes_asymmetric(keys, b[0] as int, b[x + 1] as int);
                assert(b.contains(i));
                assert(a.contains(i));
                let y = choose|y: int| 0 <= y < a.len() && a[y] == i;
                assert(ta[y - 1] == i);
            }
        }
        lemma_ascending_unique(keys, ta, tb);
        assert(a =~= seq![a[0]] + ta);
        assert(b =~= seq![b[0]] + tb);
    }
}

/// There is at most one stable order of a list of keys.
pub proof fn order_is_unique(keys: Seq<Seq<Seq<u8>>>, n: int, a: Seq<usize>, b: Seq<usize>)
    requires
        is_order(keys, n, a),
        is_order(keys, n, b),
    ensures
        a == b,
{
    assert forall|i: usize| #[trigger] a.contains(i) <==> b.contains(i) by {
        if a.contains(i) {
            let x = choose|x: int| 0 <= x < a.len() && a[x] == i;
            assert(0 <= a[x] < n);
        }
        if b.contains(i) {
            let x = choose|x: int| 0 <= x < b.len() && b[x] == i;
            assert(0 <= b[x] < n);
        }
    }
    lemma_ascending_unique(keys, a, b);
}

pub fn bytes_rank(a: &[u8], b: &[u8]) -> (rank: Rank)
    ensures
        rank == Rank::Before <==> bytes_less(a@, b@),
        rank == Rank::Same <==> a@ == b@,
        rank == Rank::After <==> bytes_less(b@, a@),
{
    let mut i: usize = 0;
    assert(a@.skip(0) =~= a@);
    assert(b@.skip(0) =~= b@);
    while i < a.len() && i < b.len()
        invariant
            i <= a@.len(),
            i <= b@.len(),
            bytes_less(a@, b@) == bytes_less(a@.skip(i as int), b@.skip(i as int)),
            bytes_less(b@, a@) == bytes_less(b@.skip(i as int), a@.skip(i as int)),
            forall|j: int| 0 <= j < i ==> a@[j] == b@[j],
        decreases a@.len() - i,
    {
        if a[i] < b[i] {
            return Rank::Before;
        }
        if b[i] < a[i] {
            return Rank::After;
        }
        assert(a@.skip(i as int).skip(1) =~= a@.skip(i + 1));
        assert(b@.skip(i as int).skip(1) =~= b@.skip(i + 1));
        i += 1;
    }
    if a.len() < b.len() {
        Rank::Before
    } else if b.len() < a.len() {
        Rank::After
    } else {
        assert(a@ =~= b@);
        proof {
            bytes_less_irreflexive(a@);
        }
        Rank::Same
    }
}

pub fn key_rank(a: &Vec<Vec<u8>>, b: &Vec<Vec<u8>>) -> (rank: Rank)
    ensures
        rank == Rank::Before <==> key_less(bytes::views(a@), bytes::views(b@)),
        rank == Rank::Same <==> bytes::views(a@) == bytes::views(b@),
        rank == Rank::After <==> key_less(bytes::views(b@), bytes::views(a@)),
{
    let ghost ka = bytes::views(a@);
    let ghost kb = bytes::views(b@);
    let mut i: usize = 0;
    assert(ka.skip(0) =~= ka);
    assert(kb.skip(0) =~= kb);
    while i < a.len() && i < b.len()
        invariant
            ka == bytes::views(a@),
            kb == bytes::views(b@),
            i <= a@.len(),
            i <= b@.len(),
            key_less(ka, kb) == key_less(ka.skip(i as int), kb.skip(i as int)),
            key_less(kb, ka) == key_less(kb.skip(i as int), ka.skip(i as int)),
            forall|j: int| 0 <= j < i ==> ka[j] == kb[j],
        decreases a@.len() - i,
    {
        let rank = bytes_rank(a[i].as_slice(), b[i].as_slice());
        assert(ka.skip(i as int)[0] == a@[i as int]@);
        assert(kb.skip(i as int)[0] == b@[i as int]@);
        proof {
            bytes_less_irreflexive(a@[i as int]@);
            if rank == Rank::Same {
            } else {
                assert(ka[i as int] != kb[i as int]);
                if key_less(ka, kb) && key_less(kb, ka) {
                    key_less_transitive(ka, kb, ka);
                    key_less_irreflexive(ka);
                }
            }
        }
        match rank {
            Rank::Before => {
                return Rank::Before;
            },
            Rank::After => {
                return Rank::After;
            },
            Rank::Same => {},
        }
        assert(ka.skip(i as int).skip(1) =~= ka.skip(i + 1));
        assert(kb.skip(i as int).skip(1) =~= kb.skip(i + 1));
        i += 1;
    }
    if a.len() < b.len() {
        Rank::Before
    } else if b.len() < a.len() {
        Rank::After
    } else {
        assert(ka =~= kb);
        proof {
            key_less_irreflexive(ka);
        }
        Rank::Same
    }
}

/// Where item `item` goes in `order`: behind every listed item whose key is not greater.
fn insertion_point(keys: &Vec<Vec<Vec<u8>>>, order: &Vec<usize>, item: usize) -> (at: usize)
    requires
        item < keys@.len(),
        is_order(key_views(keys@), item as int, order@),
    ensures
        at <= order@.len(),
        forall|a: int|
            0 <= a < at ==> precedes(key_views(keys@), #[trigger] order@[a] as int, item as int),
        forall|a: int|
            at <= a < order@.len() ==> precedes(key_views(keys@), item as int, #[trigger] order@[a] as int),
{
    let ghost all = key_views(keys@);
    let mut low: usize = 0;
    let mut high: usize = order.len();
    while low < high
        invariant
            all == key_views(keys@),
            item < keys@.len(),
            is_order(all, item as int, order@),
            low <= high <= order@.len(),
            forall|a: int| 0 <= a < low ==> precedes(all, #[trigger] order@[a] as int, item as int),
            forall|a: int|
                high <= a < order@.len() ==> precedes(all, item as int, #[trigger] order@[a] as int),
        decreases high - low,
    {
        let mid: usize = low + (high - low) / 2;
        let other: usize = order[mid];
        let rank = key_rank(&keys[item], &keys[other]);
        proof {
            key_less_total(all[item as int], all[other as int]);
        }
        if let Rank::Before = rank {
            assert forall|a: int| mid <= a < order@.len() implies precedes(
                all,
                item as int,
                #[trigger] order@[a] as int,
            ) by {
                if a > mid {
                    assert(precedes(all, order@[mid as int] as int, order@[a] as int));
                    lemma_precedes_transitive(all, item as int, other as int, order@[a] as int);
                }
            }
            high = mid;
        } else {
            assert(precedes(all, other as int, item as int));
            assert forall|a: int| 0 <= a <= mid implies precedes(
                all,
                #[trigger] order@[a] as int,
                item as int,
            ) by {
                if a < mid {
                    assert(precedes(all, order@[a] as int, order@[mid as int] as int));
                    lemma_precedes_transitive(all, order@[a] as int, other as int, item as int);
                }
            }
            low = mid + 1;
        }
    }
    low
}

pub proof fn lemma_precedes_transitive(keys: Seq<Seq<Seq<u8>>>, i: int, j: int, k: int)
    requires
        precedes(keys, i, j),
        precedes(keys, j, k),
    ensures
        precedes(keys, i, k),
{
    if key_less(keys[i], keys[j]) && key_less(keys[j], keys[k]) {
        key_less_transitive(keys[i], keys[j], keys[k]);
    }
}

/// An order stays one when the next position is put where it belongs.
proof fn lemma_inserted(keys: Seq<Seq<Seq<u8>>>, before: Seq<usize>, at: int, item: usize)
    requires
        is_order(keys, item as int, before),
        0 <= at <= before.len(),
        forall|a: int| 0 <= a < at ==> precedes(keys, #[trigger] before[a] as int, item as int),
        forall|a: int|
            at <= a < before.len() ==> precedes(keys, item as int, #[trigger] before[a] as int),
    ensures
        is_order(keys, item + 1, before.insert(at, item)),
{
    let after = before.insert(at, item);
    assert forall|a: int, b: int| 0 <= a < b < after.len() implies precedes(
        keys,
        #[trigger] after[a] as int,
        #[trigger] after[b] as int,
    ) by {
        if a < at {
            assert(after[a] == before[a]);
            if b > at {
                assert(after[b] == before[b - 1]);
            } else if b < at {
                assert(after[b] == before[b]);
            }
        } else if a == at {
            assert(after[b] == before[b - 1]);
        } else {
            assert(after[a] == before[a - 1]);
            assert(after[b] == before[b - 1]);
        }
    }
    assert forall|i: usize| 0 <= i < item + 1 implies #[trigger] after.contains(i) by {
        if i == item {
            assert(after[at] == item);
        } else {
            assert(before.contains(i));
            let x = choose|x: int| 0 <= x < before.len() && before[x] == i;
            if x < at {
                assert(after[x] == i);
            } else {
                assert(after[x + 1] == i);
            }
        }
    }
}

/// Where the position `n` belongs in an order, at `k` or behind it.
proof fn lemma_insertion_point(
    keys: Seq<Seq<Seq<u8>>>,
    n: int,
    order: Seq<usize>,
    k: int,
) -> (at: int)
    requires
        is_order(keys, n, order),
        0 <= k <= order.len(),
        forall|a: int| 0 <= a < k ==> precedes(keys, #[trigger] order[a] as int, n),
    ensures
        0 <= at <= order.len(),
        forall|a: int| 0 <= a < at ==> precedes(keys, #[trigger] order[a] as int, n),
        forall|a: int| at <= a < order.len() ==> precedes(keys, n, #[trigger] order[a] as int),
    decreases order.len() - k,
{
    if k < order.len() && precedes(keys, order[k] as int, n) {
        lemma_insertion_point(keys, n, order, k + 1)
    } else {
        if k < order.len() {
            key_less_total(keys[order[k] as int], keys[n]);
            assert forall|a: int| k <= a < order.len() implies precedes(
                keys,
                n,
                #[trigger] order[a] as int,
            ) by {
                if a > k {
                    assert(precedes(keys, order[k] as int, order[a] as int));
                    lemma_precedes_transitive(keys, n, order[k] as int, order[a] as int);
                }
            }
        }
        k
    }
}

proof fn lemma_order_exists(keys: Seq<Seq<Seq<u8>>>, n: int) -> (order: Seq<usize>)
    requires
        0 <= n <= usize::MAX,
    ensures
        is_order(keys, n, order),
    decreases n,
{
    if n == 0 {
        Seq::empty()
    } else {
        let before = lemma_order_exists(keys, n - 1);
        let at = lemma_insertion_point(keys, n - 1, before, 0);
        let item = (n - 1) as usize;
        lemma_inserted(keys, before, at, item);
        before.insert(at, item)
    }
}

/// Every list of keys has a stable ascending order: it lists each position
/// once, and each position precedes those after it.
pub proof fn sorted_order_is_order(keys: Seq<Seq<Seq<u8>>>)
    requires
        keys.len() <= usize::MAX,
    ensures
        is_order(keys, keys.len() as int, sorted_order(keys)),
{
    let order = lemma_order_exists(keys, keys.len() as int);
    assert(is_order(keys, keys.len() as int, order));
}

/// The items at the positions that `order` lists.
pub open spec fn arranged<T>(items: Seq<T>, order: Seq<usize>) -> Seq<T> {
    Seq::new(order.len(), |i: int| items[order[i] as int])
}

/// An order only rearranges the items: none is lost and none is added.
pub proof fn order_rearranges<T>(
    keys: Seq<Seq<Seq<u8>>>,
    n: int,
    order: Seq<usize>,
    items: Seq<T>,
)
    requires
        is_order(keys, n, order),
        0 <= n <= items.len(),
        n <= usize::MAX,
    ensures
        arranged(items, order).to_multiset() == items.take(n).to_multiset(),
    decreases n,
{
    broadcast use vstd::seq_lib::group_to_multiset_ensures;

    let all = arranged(items, order);
    if n == 0 {
        assert(all =~= items.take(0));
    } else {
        let item = (n - 1) as usize;
        assert(order.contains(item));
        let k = choose|k: int| 0 <= k < order.len() && order[k] == item;
        let rest = order.remove(k);
        assert forall|a: int| 0 <= a < rest.len() implies 0 <= #[trigger] rest[a] < n - 1 by {
            if a < k {
                assert(rest[a] == order[a]);
                precedes_asymmetric(keys, order[a] as int, order[k] as int);
            } else {
                assert(rest[a] == order[a + 1]);
                precedes_asymmetric(keys, order[k] as int, order[a + 1] as int);
            }
        }
        assert forall|a: int, b: int| 0 <= a < b < rest.len() implies precedes(
            keys,
            #[trigger] rest[a] as int,
            #[trigger] rest[b] as int,
        ) by {
            let x = if a < k {
                a
            } else {
                a + 1
            };
            let y = if b < k {
                b
            } else {
                b + 1
            };
            assert(rest[a] == order[x] && rest[b] == order[y]);
        }
        assert forall|i: usize| 0 <= i < n - 1 implies #[trigger] rest.contains(i) by {
            assert(order.contains(i));
            let x = choose|x: int| 0 <= x < order.len() && order[x] == i;
            if x < k {
                assert(rest[x] == i);
            } else {
                assert(rest[x - 1] == i);
            }
        }
        order_rearranges(keys, n - 1, rest, items);
        assert(arranged(items, rest) =~= all.remove(k));
        assert(all[k] == items[n - 1]);
        assert(all.contains(items[n - 1]));
        assert(items.take(n) =~= items.take(n - 1).push(items[n - 1]));
        assert(all.to_multiset() =~= all.to_multiset().remove(items[n - 1]).insert(items[n - 1]));
    }
}

/// The keys of items that were ordered by them ascend.
pub proof fn arranged_keys_ascend(keys: Seq<Seq<Seq<u8>>>, order: Seq<usize>, a: int, b: int)
    requires
        is_order(keys, keys.len() as int, order),
        0 <= a < b < order.len(),
    ensures
        !key_less(arranged(keys, order)[b], arranged(keys, order)[a]),
{
    assert(precedes(keys, order[a] as int, order[b] as int));
    precedes_asymmetric(keys, order[a] as int, order[b] as int);
}

/// Keys that begin with one part more compare by that part first.
pub proof fn lemma_first_part(p: Seq<u8>, a: Seq<Seq<u8>>, q: Seq<u8>, b: Seq<Seq<u8>>)
    ensures
        key_less(seq![p] + a, seq![q] + b) == (if p == q {
            key_less(a, b)
        } else {
            bytes_less(p, q)
        }),
{
    assert((seq![p] + a).skip(1) =~= a);
    assert((seq![q] + b).skip(1) =~= b);
    assert((seq![p] + a)[0] == p);
    assert((seq![q] + b)[0] == q);
}

/// The positions of `keys` in stable ascending order of their keys.
pub fn stable_order(keys: &Vec<Vec<Vec<u8>>>) -> (order: Vec<usize>)
    ensures
        is_order(key_views(keys@), keys@.len() as int, order@),
        order@ == sorted_order(key_views(keys@)),
{
    let ghost all = key_views(keys@);
    let mut order: Vec<usize> = Vec::new();
    for item in 0..keys.len()
        invariant
            all == key_views(keys@),
            is_order(all, item as int, order@),
    {
        let at = insertion_point(keys, &order, item);
        let ghost before = order@;
        order.insert(at, item);
        proof {
            assert(order@ == before.insert(at as int, item));
            lemma_inserted(all, before, at as int, item);
        }
    }
    proof {
        order_is_unique(all, all.len() as int, order@, sorted_order(all));
    }
    order
}

/// Bytes are ordered by the first at which they differ, and where there is none
/// the shorter text comes first.
pub proof fn bytes_differ_first(a: Seq<u8>, b: Seq<u8>, k: int)
    requires
        0 <= k <= a.len(),
        k <= b.len(),
        forall|i: int| 0 <= i < k ==> #[trigger] a[i] == b[i],
    ensures
        k < a.len() && k < b.len() && a[k] != b[k] ==> (bytes_less(a, b) <==> a[k] < b[k]),
        k == a.len() ==> (bytes_less(a, b) <==> a.len() < b.len()),
        k == b.len() ==> !bytes_less(a, b),
    decreases k,
{
    if k > 0 {
        let p = a.skip(1);
        let q = b.skip(1);
        assert forall|i: int| 0 <= i < k - 1 implies #[trigger] p[i] == q[i] by {
            assert(a[i + 1] == b[i + 1]);
        }
        bytes_differ_first(p, q, k - 1);
        assert(a[0] == b[0]);
        assert(k < a.len() ==> p[k - 1] == a[k]);
        assert(k < b.len() ==> q[k - 1] == b[k]);
    }
}

/// Keys are ordered by the first part at which they differ, and where there is
/// none the shorter key comes first.
pub proof fn keys_differ_first(a: Seq<Seq<u8>>, b: Seq<Seq<u8>>, k: int)
    requires
        0 <= k <= a.len(),
        k <= b.len(),
        forall|i: int| 0 <= i < k ==> #[trigger] a[i] == b[i],
    ensures
        k < a.len() && k < b.len() && a[k] != b[k] ==> (key_less(a, b) <==> bytes_less(a[k], b[k])),
        k == a.len() ==> (key_less(a, b) <==> a.len() < b.len()),
        k == b.len() ==> !key_less(a, b),
    decreases k,
{
    if k > 0 {
        let p = a.skip(1);
        let q = b.skip(1);
        assert forall|i: int| 0 <= i < k - 1 implies #[trigger] p[i] == q[i] by {
            assert(a[i + 1] == b[i + 1]);
        }
        keys_differ_first(p, q, k - 1);
        assert(a[0] == b[0]);
        assert(k < a.len() ==> p[k - 1] == a[k]);
        assert(k < b.len() ==> q[k - 1] == b[k]);
    }
}

/// Sorting is stable: what has equal keys keeps its order, and no key stands
/// before a lesser one.
pub proof fn sorting_is_stable(keys: Seq<Seq<Seq<u8>>>, a: int, b: int)
    requires
        keys.len() <= usize::MAX,
        0 <= a < b < keys.len(),
    ensures
        sorted_order(keys).len() == keys.len(),
        ({
            let i = sorted_order(keys)[a] as int;
            let j = sorted_order(keys)[b] as int;
            &&& 0 <= i < keys.len() && 0 <= j < keys.len() && i != j
            &&& !key_less(keys[j], keys[i])
            &&& keys[i] == keys[j] ==> i < j
        }),
{
    sorted_order_is_order(keys);
    let order = sorted_order(keys);
    let i = order[a] as int;
    let j = order[b] as int;
    assert(precedes(keys, i, j));
    precedes_asymmetric(keys, i, j);
    key_less_irreflexive(keys[i]);
}

} // verus!
