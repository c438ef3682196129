//! Which paths may be touched at all.
use crate::bytes;
use crate::error::{Error, Failure};
use crate::pathmap::PathMap;
use crate::paths;
use vstd::prelude::*;

verus! {

/// Accepts a relative path that cannot leave its directory.
pub fn validate_relative(path: &[u8]) -> (result: Result<(), Error>)
    ensures
        result is Ok <==> paths::is_safe_relative(path@),
        result matches Err(error) ==> error@ == Failure::UnsafePath(path@),
{
    if path.len() == 0 || path[0] == paths::SLASH {
        return Err(Error::UnsafePath(bytes::copy(path)));
    }
    let parts = paths::split_path(path);
    let ghost all = paths::components(path@);
    for i in 0..parts.len()
        invariant
            all == paths::components(path@),
            bytes::views(parts@) == all,
            forall|j: int| 0 <= j < i ==> all[j] != paths::parent_component(),
    {
        assert(all[i as int] == parts@[i as int]@);
        if parts[i].len() == 1 && parts[i][0] == 3 {
            assert(all[i as int] =~= paths::parent_component());
            assert(all.contains(paths::parent_component()));
            return Err(Error::UnsafePath(bytes::copy(path)));
        }
    }
    Ok(())
}

/// The directories above a path, from the top, that are not in `known`; each
/// by its components. Where the directory that holds the path is known, none is.
pub open spec fn unknown_ancestors(
    parts: Seq<Seq<u8>>,
    known: Set<Seq<Seq<u8>>>,
) -> Seq<Seq<Seq<u8>>> {
    if parts.len() <= 1 || known.contains(parts.drop_last()) {
        Seq::empty()
    } else {
        unknown_prefixes(parts, known, parts.len() - 1)
    }
}

/// The first `count` nonempty prefixes of `parts` that are not in `known`.
pub open spec fn unknown_prefixes(
    parts: Seq<Seq<u8>>,
    known: Set<Seq<Seq<u8>>>,
    count: int,
) -> Seq<Seq<Seq<u8>>>
    decreases count,
{
    if count <= 0 {
        Seq::empty()
    } else {
        let rest = unknown_prefixes(parts, known, count - 1);
        if known.contains(parts.take(count)) {
            rest
        } else {
            rest.push(parts.take(count))
        }
    }
}

/// How many of the leading findings are `true`.
pub open spec fn leading(found: Seq<bool>) -> int
    decreases found.len(),
{
    if found.len() == 0 {
        0
    } else if leading(found.drop_last()) == found.len() - 1 && found.last() {
        found.len() as int
    } else {
        leading(found.drop_last())
    }
}

/// The first `count` of `items`, added to `known`.
pub open spec fn known_after(
    known: Set<Seq<Seq<u8>>>,
    items: Seq<Seq<Seq<u8>>>,
    count: int,
) -> Set<Seq<Seq<u8>>>
    decreases count,
{
    if count <= 0 {
        known
    } else {
        known_after(known, items, count - 1).insert(items[count - 1])
    }
}

/// Every ancestor that was looked at is a directory.
pub open spec fn all_directories(unknown: int, found: Seq<bool>) -> bool {
    found.len() >= unknown && forall|i: int| 0 <= i < unknown ==> #[trigger] found[i]
}

/// How many of `unknown` ancestors were found to be directories before one was not.
pub open spec fn confirmed(unknown: int, found: Seq<bool>) -> int {
    if found.len() >= unknown {
        leading(found.take(unknown))
    } else {
        leading(found)
    }
}

proof fn lemma_leading(found: Seq<bool>)
    ensures
        0 <= leading(found) <= found.len(),
        forall|i: int| 0 <= i < leading(found) ==> #[trigger] found[i],
        leading(found) < found.len() ==> !found[leading(found)],
    decreases found.len(),
{
    if found.len() > 0 {
        lemma_leading(found.drop_last());
        assert forall|i: int| 0 <= i < leading(found) implies #[trigger] found[i] by {
            if i < found.len() - 1 {
                assert(found.drop_last()[i] == found[i]);
            }
        }
        let k = leading(found.drop_last());
        if k < found.len() - 1 {
            assert(found.drop_last()[k] == found[k]);
        }
    }
}

/// The directories above `relative` that have to be looked at: those not known
/// to be directories yet, from the top.
pub fn ancestors_to_check(relative: &[u8], known: &PathMap<bool>) -> (directories: Vec<Vec<u8>>)
    requires
        known.wf(),
        !paths::is_absolute(relative@),
    ensures
        ({
            let unknown = unknown_ancestors(paths::components(relative@), known@.dom());
            &&& directories@.len() == unknown.len()
            &&& forall|i: int|
                0 <= i < unknown.len() ==> (#[trigger] directories@[i])@ == paths::relative_text(
                    unknown[i],
                ) && paths::components(directories@[i]@) == unknown[i]
        }),
{
    let parts = paths::split_path(relative);
    let ghost all = paths::components(relative@);
    proof {
        paths::components_of_relative(relative@);
    }
    let mut directories: Vec<Vec<u8>> = Vec::new();
    if parts.len() <= 1 {
        return directories;
    }
    let parent = paths::prefix_text(&parts, parts.len() - 1);
    assert(all.take(all.len() - 1) =~= all.drop_last());
    if known.contains(parent.as_slice()) {
        return directories;
    }
    for count in 1..parts.len()
        invariant
            known.wf(),
            all == bytes::views(parts@),
            paths::relative_components(all),
            directories@.len() == unknown_prefixes(all, known@.dom(), count - 1).len(),
            forall|i: int|
                0 <= i < directories@.len() ==> {
                    let unknown = unknown_prefixes(all, known@.dom(), count - 1);
                    (#[trigger] directories@[i])@ == paths::relative_text(unknown[i])
                        && paths::components(directories@[i]@) == unknown[i]
                },
    {
        let directory = paths::prefix_text(&parts, count);
        if !known.contains(directory.as_slice()) {
            directories.push(directory);
        }
    }
    directories
}

/// Takes in what looking at those directories found: `found` says of each, in
/// order, whether it is a directory, up to the first that is not. Directories
/// that were confirmed become known.
pub fn validate_ancestors(relative: &[u8], found: &Vec<bool>, known: &mut PathMap<bool>) -> (result:
    Result<(), Error>)
    requires
        old(known).wf(),
        !paths::is_absolute(relative@),
    ensures
        final(known).wf(),
        ({
            let unknown = unknown_ancestors(paths::components(relative@), old(known)@.dom());
            &&& result is Ok <==> all_directories(unknown.len() as int, found@)
            &&& result matches Err(error) ==> error@ == Failure::UnsafePath(relative@)
            &&& final(known)@.dom() == known_after(
                old(known)@.dom(),
                unknown,
                confirmed(unknown.len() as int, found@),
            )
        }),
{
    let directories = ancestors_to_check(relative, known);
    let ghost before = known@.dom();
    let ghost unknown = unknown_ancestors(paths::components(relative@), before);
    let ghost n = unknown.len() as int;
    let ghost looked = if found@.len() >= n {
        found@.take(n)
    } else {
        found@
    };
    proof {
        lemma_leading(looked);
    }
    for i in 0..directories.len()
        invariant
            known.wf(),
            n == unknown.len(),
            n == directories@.len(),
            forall|j: int|
                0 <= j < n ==> paths::components((#[trigger] directories@[j])@) == unknown[j],
            looked == (if found@.len() >= n {
                found@.take(n)
            } else {
                found@
            }),
            i <= leading(looked) <= looked.len(),
            leading(looked) < looked.len() ==> !looked[leading(looked)],
            forall|j: int| 0 <= j < leading(looked) ==> #[trigger] looked[j],
            known@.dom() == known_after(before, unknown, i as int),
            before == old(known)@.dom(),
            unknown == unknown_ancestors(paths::components(relative@), before),
    {
        if i >= found.len() || !found[i] {
            assert(leading(looked) == i) by {
                if i < looked.len() {
                    assert(looked[i as int] == found@[i as int]);
                }
            }
            return Err(Error::UnsafePath(bytes::copy(relative)));
        }
        assert(looked[i as int] == found@[i as int]);
        known.insert(directories[i].as_slice(), true);
        assert(known@.dom() =~= known_after(before, unknown, i + 1));
    }
    assert(leading(looked) == n);
    assert(all_directories(n, found@)) by {
        assert forall|i: int| 0 <= i < n implies #[trigger] found@[i] by {
            assert(looked[i] == found@[i]);
        }
    }
    Ok(())
}

/// Every directory above the path with these components is one.
pub open spec fn is_real(parts: Seq<Seq<u8>>, dirs: spec_fn(Seq<Seq<u8>>) -> bool) -> bool {
    forall|n: int| 0 < n < parts.len() ==> dirs(#[trigger] parts.take(n))
}

/// Only directories are known, and those above a known one are directories too.
pub open spec fn knows_only(
    known: Set<Seq<Seq<u8>>>,
    dirs: spec_fn(Seq<Seq<u8>>) -> bool,
) -> bool {
    forall|p: Seq<Seq<u8>>| #[trigger] known.contains(p) ==> dirs(p) && is_real(p, dirs)
}

/// What was found of these directories is true, and nothing was left out before
/// the first that is none.
pub open spec fn found_truly(
    asked: Seq<Seq<Seq<u8>>>,
    found: Seq<bool>,
    dirs: spec_fn(Seq<Seq<u8>>) -> bool,
) -> bool {
    &&& forall|i: int|
        0 <= i < asked.len() && i < found.len() ==> #[trigger] found[i] == dirs(asked[i])
    &&& found.len() < asked.len() ==> found.len() > 0 && !found.last()
}

proof fn lemma_unknown_prefixes(parts: Seq<Seq<u8>>, known: Set<Seq<Seq<u8>>>, count: int)
    requires
        count <= parts.len(),
    ensures
        ({
            let list = unknown_prefixes(parts, known, count);
            &&& forall|i: int|
                0 <= i < list.len() ==> 1 <= (#[trigger] list[i]).len() <= count && list[i]
                    == parts.take(list[i].len() as int)
            &&& forall|i: int, j: int|
                0 <= i < j < list.len() ==> (#[trigger] list[i]).len() < (#[trigger] list[j]).len()
            &&& forall|m: int|
                1 <= m <= count ==> known.contains(#[trigger] parts.take(m)) || list.contains(
                    parts.take(m),
                )
        }),
    decreases count,
{
    if count > 0 {
        lemma_unknown_prefixes(parts, known, count - 1);
        let before = unknown_prefixes(parts, known, count - 1);
        let list = unknown_prefixes(parts, known, count);
        assert(parts.take(count).len() == count);
        assert forall|m: int| 1 <= m <= count implies known.contains(#[trigger] parts.take(m))
            || list.contains(parts.take(m)) by {
            if m < count {
                if before.contains(parts.take(m)) {
                    let k = choose|k: int| 0 <= k < before.len() && before[k] == parts.take(m);
                    assert(list[k] == parts.take(m));
                }
            } else if !known.contains(parts.take(count)) {
                assert(list[list.len() - 1] == parts.take(m));
            }
        }
    }
}

proof fn lemma_known_after(
    known: Set<Seq<Seq<u8>>>,
    items: Seq<Seq<Seq<u8>>>,
    count: int,
    p: Seq<Seq<u8>>,
)
    requires
        count <= items.len(),
    ensures
        known_after(known, items, count).contains(p) <==> known.contains(p) || exists|i: int|
            0 <= i < count && #[trigger] items[i] == p,
    decreases count,
{
    if count > 0 {
        lemma_known_after(known, items, count - 1, p);
        if exists|i: int| 0 <= i < count && #[trigger] items[i] == p {
            let i = choose|i: int| 0 <= i < count && #[trigger] items[i] == p;
            if i < count - 1 {
                assert(items[i] == p);
            }
        }
    }
}

/// Asking only for what is not known yet tells whether every directory above a
/// path is one, and only directories become known.
pub proof fn asking_tells_real_directories(
    parts: Seq<Seq<u8>>,
    known: Set<Seq<Seq<u8>>>,
    found: Seq<bool>,
    dirs: spec_fn(Seq<Seq<u8>>) -> bool,
)
    requires
        knows_only(known, dirs),
        found_truly(unknown_ancestors(parts, known), found, dirs),
    ensures
        ({
            let asked = unknown_ancestors(parts, known);
            let count = asked.len() as int;
            &&& all_directories(count, found) <==> is_real(parts, dirs)
            &&& knows_only(known_after(known, asked, confirmed(count, found)), dirs)
        }),
{
    let asked = unknown_ancestors(parts, known);
    let count = asked.len() as int;
    let looked = if found.len() >= count {
        found.take(count)
    } else {
        found
    };
    lemma_leading(looked);
    let sure = confirmed(count, found);
    assert(sure == leading(looked));
    let few = parts.len() <= 1 || known.contains(parts.drop_last());
    if !few {
        lemma_unknown_prefixes(parts, known, parts.len() - 1);
    }
    assert forall|i: int| 0 <= i < sure implies dirs(#[trigger] asked[i]) by {
        assert(looked[i] == found[i]);
        assert(found[i] == dirs(asked[i]));
    }
    if is_real(parts, dirs) {
        assert forall|i: int| 0 <= i < count && i < found.len() implies #[trigger] found[i] by {
            assert(found[i] == dirs(asked[i]));
            assert(dirs(parts.take(asked[i].len() as int)));
        }
        if found.len() < count {
            assert(found[found.len() - 1] == found.last());
        }
    }
    if all_directories(count, found) {
        assert forall|n: int| 0 < n < parts.len() implies dirs(#[trigger] parts.take(n)) by {
            if parts.len() > 1 && known.contains(parts.drop_last()) {
                let above = parts.drop_last();
                if n < above.len() {
                    assert(above.take(n) =~= parts.take(n));
                    assert(dirs(above.take(n)));
                } else {
                    assert(parts.take(n) =~= above);
                }
            } else if !known.contains(parts.take(n)) {
                assert(asked.contains(parts.take(n)));
                let i = choose|i: int| 0 <= i < asked.len() && asked[i] == parts.take(n);
                assert(found[i] == dirs(asked[i]));
            }
        }
    }
    let after = known_after(known, asked, sure);
    assert forall|p: Seq<Seq<u8>>| #[trigger] after.contains(p) implies dirs(p) && is_real(
        p,
        dirs,
    ) by {
        lemma_known_after(known, asked, sure, p);
        if !known.contains(p) {
            let i = choose|i: int| 0 <= i < sure && #[trigger] asked[i] == p;
            assert(dirs(asked[i]));
            assert forall|n: int| 0 < n < p.len() implies dirs(#[trigger] p.take(n)) by {
                assert(p.take(n) =~= parts.take(n));
                if !known.contains(parts.take(n)) {
                    assert(asked.contains(parts.take(n)));
                    let j = choose|j: int| 0 <= j < asked.len() && asked[j] == parts.take(n);
                    if i < j {
                        assert(asked[i].len() < asked[j].len());
                    }
                    assert(j < i);
                    assert(dirs(asked[j]));
                }
            }
        }
    }
}

} // verus!
