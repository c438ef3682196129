//! Byte strings: comparison, prefixes, splitting and joining.
use vstd::prelude::*;

verus! {

/// What a list of byte strings holds.
pub open spec fn views(items: Seq<Vec<u8>>) -> Seq<Seq<u8>> {
    Seq::new(items.len(), |i: int| items[i]@)
}

/// The parts of `s` between occurrences of `sep`: a separator opens a new part,
/// any other element extends the last one. There is always at least one part.
pub open spec fn split<T>(s: Seq<T>, sep: T) -> Seq<Seq<T>>
    decreases s.len(),
{
    if s.len() == 0 {
        seq![Seq::empty()]
    } else {
        let parts = split(s.drop_last(), sep);
        if s.last() == sep {
            parts.push(Seq::empty())
        } else {
            parts.update(parts.len() - 1, parts.last().push(s.last()))
        }
    }
}

/// The parts with `sep` between each two of them.
pub open spec fn join<T>(parts: Seq<Seq<T>>, sep: T) -> Seq<T>
    decreases parts.len(),
{
    if parts.len() == 0 {
        Seq::empty()
    } else if parts.len() == 1 {
        parts[0]
    } else {
        join(parts.drop_last(), sep).push(sep) + parts.last()
    }
}

/// Every part followed by `end`.
pub open spec fn terminate<T>(parts: Seq<Seq<T>>, end: T) -> Seq<T>
    decreases parts.len(),
{
    if parts.len() == 0 {
        Seq::empty()
    } else {
        (terminate(parts.drop_last(), end) + parts.last()).push(end)
    }
}

/// The parts that are not empty, in order.
pub open spec fn nonempty<T>(parts: Seq<Seq<T>>) -> Seq<Seq<T>>
    decreases parts.len(),
{
    if parts.len() == 0 {
        Seq::empty()
    } else {
        let rest = nonempty(parts.drop_last());
        if parts.last().len() == 0 {
            rest
        } else {
            rest.push(parts.last())
        }
    }
}

pub open spec fn has_prefix<T>(s: Seq<T>, prefix: Seq<T>) -> bool {
    &&& prefix.len() <= s.len()
    &&& s.take(prefix.len() as int) == prefix
}

/// The position of the first `x`, or the length of `s` where there is none.
pub open spec fn index_of<T>(s: Seq<T>, x: T) -> int
    decreases s.len(),
{
    if s.len() == 0 {
        0
    } else {
        let i = index_of(s.drop_last(), x);
        if i < s.len() - 1 || s.last() == x {
            i
        } else {
            i + 1
        }
    }
}

/// `s` without one trailing line feed.
pub open spec fn without_newline(s: Seq<u8>) -> Seq<u8> {
    if s.len() > 0 && s.last() == 10 {
        s.drop_last()
    } else {
        s
    }
}

pub proof fn lemma_split_len<T>(s: Seq<T>, sep: T)
    ensures
        split(s, sep).len() >= 1,
    decreases s.len(),
{
    if s.len() > 0 {
        lemma_split_len(s.drop_last(), sep);
    }
}

/// `index_of` gives the first occurrence.
pub proof fn lemma_index_of<T>(s: Seq<T>, x: T)
    ensures
        0 <= index_of(s, x) <= s.len(),
        index_of(s, x) < s.len() ==> s[index_of(s, x)] == x,
        forall|i: int| 0 <= i < index_of(s, x) ==> s[i] != x,
    decreases s.len(),
{
    if s.len() > 0 {
        lemma_index_of(s.drop_last(), x);
        let i = index_of(s.drop_last(), x);
        assert(forall|j: int| 0 <= j < s.len() - 1 ==> s.drop_last()[j] == s[j]);
    }
}

/// Joining the parts of a split gives the string back, and no part holds the separator.
pub proof fn split_then_join<T>(s: Seq<T>, sep: T)
    ensures
        join(split(s, sep), sep) == s,
        forall|i: int| 0 <= i < split(s, sep).len() ==> !(#[trigger] split(s, sep)[i]).contains(sep),
    decreases s.len(),
{
    if s.len() == 0 {
        assert(join(split(s, sep), sep) =~= s);
    } else {
        let init = s.drop_last();
        let parts = split(init, sep);
        split_then_join(init, sep);
        lemma_split_len(init, sep);
        assert(init.push(s.last()) =~= s);
        if s.last() == sep {
            let all = parts.push(Seq::empty());
            assert(all.drop_last() =~= parts);
            assert(join(all, sep) =~= s);
            assert forall|i: int| 0 <= i < all.len() implies !(#[trigger] all[i]).contains(sep) by {
                if i < parts.len() {
                    assert(all[i] == parts[i]);
                }
            }
        } else {
            let last = parts.last().push(s.last());
            let all = parts.update(parts.len() - 1, last);
            assert(all.drop_last() =~= parts.drop_last());
            assert(join(all, sep) =~= s);
            assert forall|i: int| 0 <= i < all.len() implies !(#[trigger] all[i]).contains(sep) by {
                assert(!parts[i].contains(sep));
                if i == parts.len() - 1 {
                    assert forall|k: int| 0 <= k < last.len() implies last[k] != sep by {
                        if k < parts.last().len() {
                            assert(parts.last()[k] == last[k]);
                            assert(parts.last().contains(last[k]));
                        }
                    }
                }
            }
        }
    }
}

/// Splitting parts that hold no separator and were each terminated by it gives
/// them back, followed by one empty part.
pub proof fn terminate_then_split<T>(parts: Seq<Seq<T>>, sep: T)
    requires
        forall|i: int| 0 <= i < parts.len() ==> !(#[trigger] parts[i]).contains(sep),
    ensures
        split(terminate(parts, sep), sep) == parts.push(Seq::empty()),
    decreases parts.len(),
{
    if parts.len() == 0 {
        assert(split(terminate(parts, sep), sep) =~= parts.push(Seq::empty()));
    } else {
        let init = parts.drop_last();
        assert forall|i: int| 0 <= i < init.len() implies !(#[trigger] init[i]).contains(sep) by {
            assert(init[i] == parts[i]);
        }
        terminate_then_split(init, sep);
        let before = terminate(init, sep);
        lemma_split_extend(before, parts.last(), sep);
        let whole = before + parts.last();
        assert(whole.push(sep).drop_last() =~= whole);
        let grown = split(before, sep).update(
            split(before, sep).len() - 1,
            split(before, sep).last() + parts.last(),
        );
        assert(split(before, sep).last() + parts.last() =~= parts.last());
        assert(grown =~= parts);
        assert(split(whole.push(sep), sep) =~= parts.push(Seq::empty()));
    }
}

/// Appending a text without separators extends the last part.
pub proof fn lemma_split_extend<T>(s: Seq<T>, more: Seq<T>, sep: T)
    requires
        !more.contains(sep),
    ensures
        split(s + more, sep) == split(s, sep).update(
            split(s, sep).len() - 1,
            split(s, sep).last() + more,
        ),
    decreases more.len(),
{
    lemma_split_len(s, sep);
    let parts = split(s, sep);
    if more.len() == 0 {
        assert(s + more =~= s);
        assert(parts.last() + more =~= parts.last());
        assert(parts.update(parts.len() - 1, parts.last() + more) =~= parts);
    } else {
        let init = more.drop_last();
        assert(!init.contains(sep)) by {
            if init.contains(sep) {
                let k = choose|k: int| 0 <= k < init.len() && init[k] == sep;
                assert(more[k] == sep);
            }
        }
        lemma_split_extend(s, init, sep);
        assert((s + more).drop_last() =~= s + init);
        assert((s + more).last() == more.last());
        assert(more[more.len() - 1] != sep);
        assert(parts.last() + more =~= (parts.last() + init).push(more.last()));
        assert(split(s + more, sep) =~= parts.update(parts.len() - 1, parts.last() + more));
    }
}

/// The nonempty parts of a terminated list of nonempty, separator-free parts
/// are that list.
pub proof fn terminate_then_parts<T>(parts: Seq<Seq<T>>, sep: T)
    requires
        forall|i: int| 0 <= i < parts.len() ==> !(#[trigger] parts[i]).contains(sep),
        forall|i: int| 0 <= i < parts.len() ==> (#[trigger] parts[i]).len() > 0,
    ensures
        nonempty(split(terminate(parts, sep), sep)) == parts,
{
    terminate_then_split(parts, sep);
    assert(parts.push(Seq::empty()).drop_last() =~= parts);
    lemma_nonempty_all(parts);
}

pub proof fn lemma_nonempty_all<T>(parts: Seq<Seq<T>>)
    requires
        forall|i: int| 0 <= i < parts.len() ==> (#[trigger] parts[i]).len() > 0,
    ensures
        nonempty(parts) == parts,
    decreases parts.len(),
{
    if parts.len() > 0 {
        let init = parts.drop_last();
        assert forall|i: int| 0 <= i < init.len() implies (#[trigger] init[i]).len() > 0 by {
            assert(init[i] == parts[i]);
        }
        lemma_nonempty_all(init);
        assert(parts[parts.len() - 1].len() > 0);
        assert(init.push(parts.last()) =~= parts);
    } else {
        assert(nonempty(parts) =~= parts);
    }
}

pub fn equal(a: &[u8], b: &[u8]) -> (same: bool)
    ensures
        same == (a@ == b@),
{
    if a.len() != b.len() {
        return false;
    }
    for i in 0..a.len()
        invariant
            a.len() == b.len(),
            forall|j: int| 0 <= j < i ==> a@[j] == b@[j],
    {
        if a[i] != b[i] {
            return false;
        }
    }
    assert(a@ =~= b@);
    true
}

pub fn starts_with(s: &[u8], prefix: &[u8]) -> (yes: bool)
    ensures
        yes == has_prefix(s@, prefix@),
{
    if s.len() < prefix.len() {
        return false;
    }
    for i in 0..prefix.len()
        invariant
            prefix.len() <= s.len(),
            forall|j: int| 0 <= j < i ==> s@[j] == prefix@[j],
    {
        if s[i] != prefix[i] {
            assert(s@.take(prefix@.len() as int)[i as int] == s@[i as int]);
            return false;
        }
    }
    assert(s@.take(prefix@.len() as int) =~= prefix@);
    true
}

/// A copy of `s[from..to]`.
pub fn slice(s: &[u8], from: usize, to: usize) -> (part: Vec<u8>)
    requires
        from <= to <= s@.len(),
    ensures
        part@ == s@.subrange(from as int, to as int),
{
    let mut part: Vec<u8> = Vec::new();
    for i in from..to
        invariant
            from <= to <= s@.len(),
            part@ == s@.subrange(from as int, i as int),
    {
        part.push(s[i]);
        assert(part@ =~= s@.subrange(from as int, i + 1));
    }
    part
}

pub fn copy(s: &[u8]) -> (same: Vec<u8>)
    ensures
        same@ == s@,
{
    let same = slice(s, 0, s.len());
    assert(same@ =~= s@);
    same
}

pub fn append(s: &mut Vec<u8>, more: &[u8])
    ensures
        final(s)@ == old(s)@ + more@,
{
    let ghost start = s@;
    for i in 0..more.len()
        invariant
            s@ == start + more@.take(i as int),
    {
        s.push(more[i]);
        assert(s@ =~= start + more@.take(i + 1));
    }
    assert(more@.take(more@.len() as int) =~= more@);
    assert(s@ =~= start + more@);
}

/// What follows `prefix` in `s`, where `s` starts with it.
pub fn strip_prefix(s: &[u8], prefix: &[u8]) -> (rest: Option<Vec<u8>>)
    ensures
        rest is Some <==> has_prefix(s@, prefix@),
        rest matches Some(r) ==> r@ == s@.skip(prefix@.len() as int),
{
    if starts_with(s, prefix) {
        let rest = slice(s, prefix.len(), s.len());
        assert(rest@ =~= s@.skip(prefix@.len() as int));
        Some(rest)
    } else {
        None
    }
}

/// The position of the first `x`, or the length of `s`.
pub fn position(s: &[u8], x: u8) -> (at: usize)
    ensures
        at as int == index_of(s@, x),
{
    let mut at: usize = 0;
    assert(s@.take(0) =~= Seq::<u8>::empty());
    for i in 0..s.len()
        invariant
            at as int == index_of(s@.take(i as int), x),
            at <= i,
    {
        assert(s@.take(i + 1).drop_last() =~= s@.take(i as int));
        if at == i && s[i] != x {
            at = i + 1;
        }
    }
    assert(s@.take(s@.len() as int) =~= s@);
    at
}

/// The parts of `s` between separators.
pub fn parts(s: &[u8], sep: u8) -> (result: Vec<Vec<u8>>)
    ensures
        views(result@) == split(s@, sep),
{
    let mut done: Vec<Vec<u8>> = Vec::new();
    let mut current: Vec<u8> = Vec::new();
    assert(s@.take(0) =~= Seq::<u8>::empty());
    assert(views(done@).push(current@) =~= split(s@.take(0), sep));
    for i in 0..s.len()
        invariant
            views(done@).push(current@) == split(s@.take(i as int), sep),
    {
        assert(s@.take(i + 1).drop_last() =~= s@.take(i as int));
        let ghost before = views(done@);
        if s[i] == sep {
            let finished = current;
            done.push(finished);
            current = Vec::new();
            assert(views(done@) =~= before.push(finished@));
            assert(views(done@).push(current@) =~= split(s@.take(i + 1), sep));
        } else {
            current.push(s[i]);
            assert(views(done@).push(current@) =~= split(s@.take(i + 1), sep));
        }
    }
    assert(s@.take(s@.len() as int) =~= s@);
    let ghost before = views(done@);
    let ghost last = current@;
    done.push(current);
    assert(views(done@) =~= before.push(last));
    done
}

/// Drops one trailing line feed.
pub fn trim_newline(s: &[u8]) -> (line: Vec<u8>)
    ensures
        line@ == without_newline(s@),
{
    if s.len() > 0 && s[s.len() - 1] == 10 {
        let line = slice(s, 0, s.len() - 1);
        assert(line@ =~= s@.drop_last());
        line
    } else {
        copy(s)
    }
}

/// Every item of `items`, each followed by `end`.
pub fn terminated(items: &Vec<Vec<u8>>, end: u8) -> (text: Vec<u8>)
    ensures
        text@ == terminate(views(items@), end),
{
    let mut text: Vec<u8> = Vec::new();
    assert(views(items@).take(0) =~= Seq::<Seq<u8>>::empty());
    for i in 0..items.len()
        invariant
            text@ == terminate(views(items@).take(i as int), end),
    {
        append(&mut text, items[i].as_slice());
        text.push(end);
        assert(views(items@).take(i + 1).drop_last() =~= views(items@).take(i as int));
        assert(views(items@).take(i + 1).last() == items[i as int]@);
    }
    assert(views(items@).take(items@.len() as int) =~= views(items@));
    text
}

/// The first `count` parts with `sep` between each two of them.
pub fn joined_parts(parts: &Vec<Vec<u8>>, count: usize, sep: u8) -> (result: Vec<u8>)
    requires
        count <= parts@.len(),
    ensures
        result@ == join(views(parts@).take(count as int), sep),
{
    let ghost all = views(parts@);
    let mut result: Vec<u8> = Vec::new();
    assert(result@ =~= join(all.take(0), sep));
    for i in 0..count
        invariant
            all == views(parts@),
            count <= parts@.len(),
            result@ == join(all.take(i as int), sep),
    {
        assert(all.take(i + 1).drop_last() =~= all.take(i as int));
        assert(all.take(i + 1).last() == parts@[i as int]@);
        if i > 0 {
            result.push(sep);
        }
        append(&mut result, parts[i].as_slice());
        assert(result@ =~= join(all.take(i + 1), sep));
    }
    result
}

/// What follows a separator, up to the end, is a part of its own behind those
/// before it; without a separator the whole is the only part.
pub proof fn parts_end_at_separators<T>(s: Seq<T>, part: Seq<T>, sep: T)
    requires
        !part.contains(sep),
    ensures
        split(s + seq![sep] + part, sep) == split(s, sep).push(part),
        split(part, sep) == seq![part],
{
    let open = s.push(sep);
    let none = Seq::<T>::empty();
    assert(s + seq![sep] + part =~= open + part);
    assert(open.drop_last() =~= s);
    lemma_split_extend(open, part, sep);
    assert(split(open, sep) =~= split(s, sep).push(none));
    assert(none + part =~= part);
    assert(split(open + part, sep) =~= split(s, sep).push(part));
    lemma_split_extend(none, part, sep);
    assert(split(part, sep) =~= seq![part]);
}

/// Parts are joined with the separator between them, and terminated with it
/// behind each.
pub proof fn parts_are_joined_in_order<T>(parts: Seq<Seq<T>>, part: Seq<T>, sep: T)
    ensures
        parts.len() > 0 ==> join(parts.push(part), sep) == join(parts, sep) + seq![sep] + part,
        join(seq![part], sep) == part,
        terminate(parts.push(part), sep) == terminate(parts, sep) + part + seq![sep],
        terminate(Seq::<Seq<T>>::empty(), sep) == Seq::<T>::empty(),
{
    let more = parts.push(part);
    assert(more.drop_last() =~= parts);
    assert(more.last() == part);
    assert(join(parts, sep).push(sep) + part =~= join(parts, sep) + seq![sep] + part);
    assert(terminate(more, sep) =~= terminate(parts, sep) + part + seq![sep]);
}

/// Empty parts are left out, and the others stay in order; `at` says which they
/// are.
pub proof fn only_empty_parts_are_left_out<T>(parts: Seq<Seq<T>>) -> (at: Seq<int>)
    ensures
        nonempty(parts).len() == at.len(),
        forall|k: int|
            0 <= k < at.len() ==> 0 <= #[trigger] at[k] < parts.len() && nonempty(parts)[k]
                == parts[at[k]],
        forall|a: int, b: int| 0 <= a < b < at.len() ==> at[a] < at[b],
        forall|i: int| at.contains(i) <==> 0 <= i < parts.len() && parts[i].len() > 0,
    decreases parts.len(),
{
    if parts.len() == 0 {
        Seq::empty()
    } else {
        let init = parts.drop_last();
        let n = parts.len() - 1;
        let before = only_empty_parts_are_left_out(init);
        assert(parts.last() == parts[n]);
        assert forall|k: int| 0 <= k < before.len() implies 0 <= #[trigger] before[k] < n by {
            assert(before.contains(before[k]));
        }
        let at = if parts[n].len() > 0 {
            before.push(n)
        } else {
            before
        };
        assert forall|i: int| at.contains(i) <==> 0 <= i < parts.len() && parts[i].len() > 0 by {
            if at.contains(i) {
                let k = choose|k: int| 0 <= k < at.len() && at[k] == i;
                if k < before.len() {
                    assert(before.contains(i));
                    assert(init[i] == parts[i]);
                }
            }
            if 0 <= i < n && parts[i].len() > 0 {
                assert(init[i] == parts[i]);
                assert(before.contains(i));
                let k = choose|k: int| 0 <= k < before.len() && before[k] == i;
                assert(at[k] == i);
            }
            if i == n && parts[n].len() > 0 {
                assert(at[before.len() as int] == n);
            }
        }
        at
    }
}

/// One line feed at the end is cut off, and nothing else.
pub proof fn one_line_feed_is_cut_off(s: Seq<u8>)
    ensures
        without_newline(s.push(10u8)) == s,
        s.len() == 0 || s.last() != 10 ==> without_newline(s) == s,
{
    assert(s.push(10u8).drop_last() =~= s);
}

} // verus!
