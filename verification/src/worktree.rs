//! Registered worktrees: reading Git's list and finding one in it.
use crate::bytes;
use crate::error;
use crate::error::{Error, Failure};
use crate::paths;
use crate::text;
use vstd::prelude::*;
use vstd::string::*;

verus! {

/// A registered worktree.
#[derive(Debug)]
pub struct Worktree {
    pub path: Vec<u8>,
    pub head: String,
    pub branch: Option<String>,
    pub locked: bool,
}

/// What a registered worktree says.
pub struct Registered {
    pub path: Seq<u8>,
    pub head: Seq<char>,
    pub branch: Option<Seq<char>>,
    pub locked: bool,
}

impl View for Worktree {
    type V = Registered;

    open spec fn view(&self) -> Registered {
        Registered {
            path: self.path@,
            head: self.head@,
            branch: text::optional(self.branch),
            locked: self.locked,
        }
    }
}

/// What a list of worktrees says.
pub open spec fn registered(list: Seq<Worktree>) -> Seq<Registered> {
    Seq::new(list.len(), |i: int| list[i]@)
}

impl Registered {
    /// The branch, or the path where none is checked out.
    pub open spec fn label(self) -> Seq<char> {
        match self.branch {
            Some(branch) => branch,
            None => text::lossy_text(self.path),
        }
    }
}

impl Worktree {
    /// The branch, or the path where none is checked out.
    pub fn label(&self) -> (label: String)
        ensures
            label@ == self@.label(),
    {
        match &self.branch {
            Some(branch) => branch.as_str().to_owned(),
            None => text::lossy(self.path.as_slice()),
        }
    }

    pub fn copy(&self) -> (same: Worktree)
        ensures
            same@ == self@,
    {
        Worktree {
            path: bytes::copy(self.path.as_slice()),
            head: self.head.as_str().to_owned(),
            branch: text::copy_optional(&self.branch),
            locked: self.locked,
        }
    }
}

/// What was read of a worktree list: the worktrees that are complete, and the
/// attributes of the one that is not.
pub struct Listing {
    pub done: Seq<Registered>,
    pub path: Option<Seq<u8>>,
    pub head: Option<Seq<char>>,
    pub branch: Option<Seq<char>>,
    pub locked: bool,
}

pub open spec fn without_heads(reference: Seq<u8>) -> Seq<u8> {
    if bytes::has_prefix(reference, "refs/heads/".spec_bytes()) {
        reference.skip("refs/heads/".spec_bytes().len() as int)
    } else {
        reference
    }
}

impl Listing {
    pub open spec fn start() -> Listing {
        Listing { done: Seq::empty(), path: None, head: None, branch: None, locked: false }
    }

    /// A worktree that has a path and a head is complete. An incomplete one
    /// loses both and keeps its other attributes.
    pub open spec fn finish(self) -> Listing {
        if self.path is Some && self.head is Some {
            Listing {
                done: self.done.push(
                    Registered {
                        path: self.path->0,
                        head: self.head->0,
                        branch: self.branch,
                        locked: self.locked,
                    },
                ),
                path: None,
                head: None,
                branch: None,
                locked: false,
            }
        } else {
            Listing { path: None, head: None, ..self }
        }
    }

    /// Reading one field: an empty one ends a worktree, another is an attribute.
    pub open spec fn read(self, field: Seq<u8>) -> Listing {
        if field.len() == 0 {
            self.finish()
        } else if bytes::has_prefix(field, "worktree ".spec_bytes()) {
            Listing { path: Some(field.skip("worktree ".spec_bytes().len() as int)), ..self }
        } else if bytes::has_prefix(field, "HEAD ".spec_bytes()) {
            Listing {
                head: Some(text::lossy_text(field.skip("HEAD ".spec_bytes().len() as int))),
                ..self
            }
        } else if bytes::has_prefix(field, "branch ".spec_bytes()) {
            Listing {
                branch: Some(
                    text::lossy_text(
                        without_heads(field.skip("branch ".spec_bytes().len() as int)),
                    ),
                ),
                ..self
            }
        } else if field == "locked".spec_bytes() || bytes::has_prefix(
            field,
            "locked ".spec_bytes(),
        ) {
            Listing { locked: true, ..self }
        } else {
            self
        }
    }
}

pub open spec fn read_fields(fields: Seq<Seq<u8>>) -> Listing
    decreases fields.len(),
{
    if fields.len() == 0 {
        Listing::start()
    } else {
        read_fields(fields.drop_last()).read(fields.last())
    }
}

/// The worktrees that a list with NUL behind each field names.
pub open spec fn porcelain(raw: Seq<u8>) -> Seq<Registered> {
    read_fields(bytes::split(raw, 0)).finish().done
}

/// A record of a worktree list: attributes without NUL, a path and a head among
/// them.
pub open spec fn is_record(fields: Seq<Seq<u8>>) -> bool {
    &&& forall|i: int|
        0 <= i < fields.len() ==> (#[trigger] fields[i]).len() > 0 && !fields[i].contains(0)
    &&& exists|i: int|
        0 <= i < fields.len() && bytes::has_prefix(
            #[trigger] fields[i],
            "worktree ".spec_bytes(),
        )
    &&& exists|i: int|
        0 <= i < fields.len() && bytes::has_prefix(#[trigger] fields[i], "HEAD ".spec_bytes())
}

/// The fields of records, an empty one behind each record.
pub open spec fn record_fields(records: Seq<Seq<Seq<u8>>>) -> Seq<Seq<u8>>
    decreases records.len(),
{
    if records.len() == 0 {
        Seq::empty()
    } else {
        (record_fields(records.drop_last()) + records.last()).push(Seq::empty())
    }
}

/// The worktree that a record describes.
pub open spec fn recorded(fields: Seq<Seq<u8>>) -> Registered {
    let state = read_fields(fields);
    Registered {
        path: state.path->0,
        head: state.head->0,
        branch: state.branch,
        locked: state.locked,
    }
}

/// A listing is made of these records.
pub open spec fn lists_records(raw: Seq<u8>, records: Seq<Seq<Seq<u8>>>) -> bool {
    &&& forall|i: int| 0 <= i < records.len() ==> is_record(#[trigger] records[i])
    &&& raw == bytes::terminate(record_fields(records), 0)
}

proof fn lemma_read_after(before: Seq<Seq<u8>>, fields: Seq<Seq<u8>>)
    requires
        read_fields(before) == (Listing { done: read_fields(before).done, ..Listing::start() }),
        forall|i: int| 0 <= i < fields.len() ==> (#[trigger] fields[i]).len() > 0,
    ensures
        read_fields(before + fields) == (Listing {
            done: read_fields(before).done,
            ..read_fields(fields)
        }),
        read_fields(fields).done == Seq::<Registered>::empty(),
    decreases fields.len(),
{
    if fields.len() == 0 {
        assert(before + fields =~= before);
    } else {
        let init = fields.drop_last();
        assert forall|i: int| 0 <= i < init.len() implies (#[trigger] init[i]).len() > 0 by {
            assert(init[i] == fields[i]);
        }
        lemma_read_after(before, init);
        assert((before + fields).drop_last() =~= before + init);
        assert((before + fields).last() == fields.last());
        assert(fields[fields.len() - 1].len() > 0);
    }
}

#[verifier::spinoff_prover]
proof fn lemma_attributes_differ(field: Seq<u8>)
    requires
        bytes::has_prefix(field, "HEAD ".spec_bytes()),
    ensures
        !bytes::has_prefix(field, "worktree ".spec_bytes()),
{
    reveal_strlit("HEAD ");
    text::lemma_ascii_bytes("HEAD ");
    reveal_strlit("worktree ");
    text::lemma_ascii_bytes("worktree ");
    let head = "HEAD ".spec_bytes();
    let path = "worktree ".spec_bytes();
    assert(head[0] == 72 && path[0] == 119);
    assert(field.take(head.len() as int)[0] == field[0]);
    if bytes::has_prefix(field, path) {
        assert(field.take(path.len() as int)[0] == field[0]);
    }
}

proof fn lemma_read_attributes(fields: Seq<Seq<u8>>)
    requires
        forall|i: int| 0 <= i < fields.len() ==> (#[trigger] fields[i]).len() > 0,
    ensures
        (exists|i: int|
            0 <= i < fields.len() && bytes::has_prefix(
                #[trigger] fields[i],
                "worktree ".spec_bytes(),
            )) ==> read_fields(fields).path is Some,
        (exists|i: int|
            0 <= i < fields.len() && bytes::has_prefix(#[trigger] fields[i], "HEAD ".spec_bytes()))
            ==> read_fields(fields).head is Some,
    decreases fields.len(),
{
    if fields.len() > 0 {
        let init = fields.drop_last();
        assert forall|i: int| 0 <= i < init.len() implies (#[trigger] init[i]).len() > 0 by {
            assert(init[i] == fields[i]);
        }
        lemma_read_attributes(init);
        let last = fields[fields.len() - 1];
        assert(last == fields.last() && last.len() > 0);
        if exists|i: int|
            0 <= i < fields.len() && bytes::has_prefix(
                #[trigger] fields[i],
                "worktree ".spec_bytes(),
            ) {
            let i = choose|i: int|
                0 <= i < fields.len() && bytes::has_prefix(
                    #[trigger] fields[i],
                    "worktree ".spec_bytes(),
                );
            if i < init.len() {
                assert(init[i] == fields[i]);
            }
        }
        if exists|i: int|
            0 <= i < fields.len() && bytes::has_prefix(#[trigger] fields[i], "HEAD ".spec_bytes()) {
            let i = choose|i: int|
                0 <= i < fields.len() && bytes::has_prefix(
                    #[trigger] fields[i],
                    "HEAD ".spec_bytes(),
                );
            if i < init.len() {
                assert(init[i] == fields[i]);
            } else {
                lemma_attributes_differ(last);
            }
        }
    }
}

proof fn lemma_read_records(records: Seq<Seq<Seq<u8>>>)
    requires
        forall|i: int| 0 <= i < records.len() ==> is_record(#[trigger] records[i]),
    ensures
        read_fields(record_fields(records)) == (Listing {
            done: Seq::new(records.len(), |i: int| recorded(records[i])),
            ..Listing::start()
        }),
        forall|i: int|
            0 <= i < record_fields(records).len() ==> !(#[trigger] record_fields(
                records,
            )[i]).contains(0),
    decreases records.len(),
{
    let all = Seq::new(records.len(), |i: int| recorded(records[i]));
    if records.len() == 0 {
        assert(all =~= Seq::<Registered>::empty());
    } else {
        let init = records.drop_last();
        let last = records[records.len() - 1];
        assert(last == records.last());
        assert forall|i: int| 0 <= i < init.len() implies is_record(#[trigger] init[i]) by {
            assert(init[i] == records[i]);
        }
        lemma_read_records(init);
        let before = record_fields(init);
        lemma_read_after(before, last);
        lemma_read_attributes(last);
        let fields = record_fields(records);
        assert(fields.drop_last() =~= before + last);
        assert(fields.last() == Seq::<u8>::empty());
        assert(all =~= Seq::new(init.len(), |i: int| recorded(init[i])).push(recorded(last)));
        assert forall|i: int| 0 <= i < fields.len() implies !(#[trigger] fields[i]).contains(0) by {
            if i < before.len() {
                assert(fields[i] == before[i]);
            } else if i < before.len() + last.len() {
                assert(fields[i] == last[i - before.len()]);
            }
        }
    }
}

/// A listing names one worktree for each of its records, in their order, each
/// described by its own record alone.
pub proof fn records_are_read_alone(raw: Seq<u8>, records: Seq<Seq<Seq<u8>>>)
    requires
        lists_records(raw, records),
    ensures
        porcelain(raw) == Seq::new(records.len(), |i: int| recorded(records[i])),
{
    let fields = record_fields(records);
    lemma_read_records(records);
    bytes::terminate_then_split(fields, 0u8);
    assert(fields.push(Seq::empty()).drop_last() =~= fields);
}

proof fn lemma_record_fields_join(a: Seq<Seq<Seq<u8>>>, b: Seq<Seq<Seq<u8>>>)
    ensures
        record_fields(a + b) == record_fields(a) + record_fields(b),
    decreases b.len(),
{
    if b.len() == 0 {
        assert(a + b =~= a);
        assert(record_fields(a) + record_fields(b) =~= record_fields(a));
    } else {
        lemma_record_fields_join(a, b.drop_last());
        assert((a + b).drop_last() =~= a + b.drop_last());
        assert((a + b).last() == b.last());
        assert(record_fields(a + b) =~= record_fields(a) + record_fields(b));
    }
}

proof fn lemma_terminate_join(a: Seq<Seq<u8>>, b: Seq<Seq<u8>>)
    ensures
        bytes::terminate(a + b, 0) == bytes::terminate(a, 0) + bytes::terminate(b, 0),
    decreases b.len(),
{
    if b.len() == 0 {
        assert(a + b =~= a);
        assert(bytes::terminate(a, 0) + bytes::terminate(b, 0) =~= bytes::terminate(a, 0));
    } else {
        lemma_terminate_join(a, b.drop_last());
        assert((a + b).drop_last() =~= a + b.drop_last());
        assert((a + b).last() == b.last());
        assert(bytes::terminate(a + b, 0) =~= bytes::terminate(a, 0) + bytes::terminate(b, 0));
    }
}

/// The worktrees of two runs of records, one behind the other, are those of the
/// first and then those of the second.
pub proof fn runs_of_records_concatenate(
    a: Seq<u8>,
    b: Seq<u8>,
    first: Seq<Seq<Seq<u8>>>,
    second: Seq<Seq<Seq<u8>>>,
)
    requires
        lists_records(a, first),
        lists_records(b, second),
    ensures
        porcelain(a + b) == porcelain(a) + porcelain(b),
{
    let all = first + second;
    lemma_record_fields_join(first, second);
    lemma_terminate_join(record_fields(first), record_fields(second));
    assert forall|i: int| 0 <= i < all.len() implies is_record(#[trigger] all[i]) by {
        if i < first.len() {
            assert(all[i] == first[i]);
        } else {
            assert(all[i] == second[i - first.len()]);
        }
    }
    records_are_read_alone(a, first);
    records_are_read_alone(b, second);
    records_are_read_alone(a + b, all);
    assert(porcelain(a + b) =~= porcelain(a) + porcelain(b));
}

/// The worktrees of Git's answer. That Git refused means that there is no
/// worktree here.
pub fn discover(answer: Result<Vec<u8>, Error>) -> (result: Result<Vec<Worktree>, Error>)
    ensures
        result is Ok <==> answer is Ok,
        result matches Ok(list) ==> registered(list@) == porcelain(answer->Ok_0@),
        result matches Err(error) ==> error@ == (if answer->Err_0@ is Git {
            Failure::NotWorktree
        } else {
            answer->Err_0@
        }),
{
    match answer {
        Ok(raw) => parse_porcelain(raw.as_slice()),
        Err(Error::Git(_)) => Err(Error::NotWorktree),
        Err(error) => Err(error),
    }
}

/// The worktrees of `git worktree list --porcelain -z`.
pub fn parse_porcelain(raw: &[u8]) -> (result: Result<Vec<Worktree>, Error>)
    ensures
        result is Ok,
        result matches Ok(list) ==> registered(list@) == porcelain(raw@),
{
    let fields = bytes::parts(raw, 0);
    let ghost all = bytes::split(raw@, 0);
    let mut done: Vec<Worktree> = Vec::new();
    let mut path: Option<Vec<u8>> = None;
    let mut head: Option<String> = None;
    let mut branch: Option<String> = None;
    let mut locked = false;
    assert(all.take(0) =~= Seq::<Seq<u8>>::empty());
    assert(registered(done@) =~= Seq::<Registered>::empty());
    for i in 0..fields.len()
        invariant
            all == bytes::views(fields@),
            ({
                let state = read_fields(all.take(i as int));
                &&& registered(done@) == state.done
                &&& optional_path(path) == state.path
                &&& text::optional(head) == state.head
                &&& text::optional(branch) == state.branch
                &&& locked == state.locked
            }),
    {
        assert(all.take(i + 1).drop_last() =~= all.take(i as int));
        assert(all.take(i + 1).last() == fields@[i as int]@);
        let field = fields[i].as_slice();
        if field.len() == 0 {
            if let (Some(at), Some(commit)) = (path, head) {
                let ghost before = registered(done@);
                let one = Worktree { path: at, head: commit, branch, locked };
                let ghost r = one@;
                done.push(one);
                assert(registered(done@) =~= before.push(r));
                branch = None;
                locked = false;
            }
            path = None;
            head = None;
        } else if let Some(value) = bytes::strip_prefix(field, "worktree ".as_bytes()) {
            path = Some(value);
        } else if let Some(value) = bytes::strip_prefix(field, "HEAD ".as_bytes()) {
            head = Some(text::lossy(value.as_slice()));
        } else if let Some(value) = bytes::strip_prefix(field, "branch ".as_bytes()) {
            branch = Some(
                match bytes::strip_prefix(value.as_slice(), "refs/heads/".as_bytes()) {
                    Some(name) => text::lossy(name.as_slice()),
                    None => text::lossy(value.as_slice()),
                },
            );
        } else if bytes::equal(field, "locked".as_bytes()) || bytes::starts_with(
            field,
            "locked ".as_bytes(),
        ) {
            locked = true;
        }
    }
    assert(all.take(all.len() as int) =~= all);
    if let (Some(at), Some(commit)) = (path, head) {
        let ghost before = registered(done@);
        let one = Worktree { path: at, head: commit, branch, locked };
        let ghost r = one@;
        done.push(one);
        assert(registered(done@) =~= before.push(r));
    }
    Ok(done)
}

pub open spec fn optional_path(path: Option<Vec<u8>>) -> Option<Seq<u8>> {
    match path {
        Some(path) => Some(path@),
        None => None,
    }
}

/// Two paths are the same by their texts, or by where they really are.
pub open spec fn is_same_path(
    left: Seq<u8>,
    right: Seq<u8>,
    real_left: Option<Seq<u8>>,
    real_right: Option<Seq<u8>>,
) -> bool {
    ||| paths::components(left) == paths::components(right)
    ||| real_left is Some && real_right is Some && paths::components(real_left->0)
        == paths::components(real_right->0)
}

/// Whether two paths are the same. `real_left` and `real_right` are where they
/// really are, for those that exist.
pub fn same_path(
    left: &[u8],
    right: &[u8],
    real_left: &Option<Vec<u8>>,
    real_right: &Option<Vec<u8>>,
) -> (yes: bool)
    ensures
        yes == is_same_path(left@, right@, optional_path(*real_left), optional_path(*real_right)),
{
    if paths::same(left, right) {
        return true;
    }
    match (real_left, real_right) {
        (Some(left), Some(right)) => paths::same(left.as_slice(), right.as_slice()),
        _ => false,
    }
}

/// The positions below `n` at which `test` holds, ascending.
pub open spec fn positions(n: int, test: spec_fn(int) -> bool) -> Seq<int>
    decreases n,
{
    if n <= 0 {
        Seq::empty()
    } else if test(n - 1) {
        positions(n - 1, test).push(n - 1)
    } else {
        positions(n - 1, test)
    }
}

pub proof fn lemma_positions(n: int, test: spec_fn(int) -> bool)
    ensures
        forall|k: int|
            0 <= k < positions(n, test).len() ==> 0 <= #[trigger] positions(n, test)[k] < n && test(
                positions(n, test)[k],
            ),
        forall|i: int| 0 <= i < n && test(i) ==> positions(n, test).contains(i),
    decreases n,
{
    if n > 0 {
        lemma_positions(n - 1, test);
        let rest = positions(n - 1, test);
        let all = positions(n, test);
        assert forall|i: int| 0 <= i < n && test(i) implies all.contains(i) by {
            if i < n - 1 {
                assert(rest.contains(i));
                let k = choose|k: int| 0 <= k < rest.len() && rest[k] == i;
                assert(all[k] == i);
            } else {
                assert(all[all.len() - 1] == i);
            }
        }
    }
}

/// Where each worktree of a list really is, by its position.
pub open spec fn real_path(places: Seq<Option<Vec<u8>>>, i: int) -> Option<Seq<u8>> {
    if 0 <= i < places.len() {
        optional_path(places[i])
    } else {
        None
    }
}

pub open spec fn path_test(
    list: Seq<Registered>,
    value: Seq<u8>,
    places: Seq<Option<Vec<u8>>>,
    real_value: Option<Seq<u8>>,
) -> spec_fn(int) -> bool {
    |i: int| is_same_path(list[i].path, value, real_path(places, i), real_value)
}

pub open spec fn branch_test(list: Seq<Registered>, name: Seq<char>) -> spec_fn(int) -> bool {
    |i: int| list[i].branch == Some(name)
}

/// The position of the worktree that `value` names: the one at that path, or
/// else the one with that branch.
pub open spec fn resolution(
    list: Seq<Registered>,
    value: Seq<u8>,
    places: Seq<Option<Vec<u8>>>,
    real_value: Option<Seq<u8>>,
) -> Result<int, Failure> {
    let at_path = positions(list.len() as int, path_test(list, value, places, real_value));
    let name = text::lossy_text(value);
    let on_branch = positions(list.len() as int, branch_test(list, name));
    if at_path.len() == 1 {
        Ok(at_path[0])
    } else if on_branch.len() == 1 {
        Ok(on_branch[0])
    } else if on_branch.len() == 0 {
        Err(Failure::WorktreeNotFound(name))
    } else {
        Err(Failure::AmbiguousWorktree(name))
    }
}

/// How many worktrees have the branch `name`, and the first of them.
fn on_branch(worktrees: &Vec<Worktree>, name: &str) -> (found: (usize, usize))
    ensures
        ({
            let list = registered(worktrees@);
            let named = positions(list.len() as int, branch_test(list, name@));
            &&& found.0 == named.len()
            &&& found.0 > 0 ==> found.1 as int == named[0] && found.1 < worktrees@.len()
        }),
{
    let ghost list = registered(worktrees@);
    let ghost named = branch_test(list, name@);
    let mut count: usize = 0;
    let mut first: usize = 0;
    for i in 0..worktrees.len()
        invariant
            list == registered(worktrees@),
            named == branch_test(list, name@),
            count == positions(i as int, named).len(),
            count <= i,
            count > 0 ==> first as int == positions(i as int, named)[0],
            count > 0 ==> first < i,
    {
        let matches = match &worktrees[i].branch {
            Some(branch) => text::same(branch.as_str(), name),
            None => false,
        };
        assert(list[i as int].branch == text::optional(worktrees@[i as int].branch));
        assert(matches == named(i as int));
        if matches {
            if count == 0 {
                first = i;
            }
            count += 1;
        }
    }
    (count, first)
}

/// The position of the worktree that `value` names. `places` says where each
/// worktree really is, and `real_value` where `value` is, for those that exist.
pub fn find(
    worktrees: &Vec<Worktree>,
    value: &[u8],
    places: &Vec<Option<Vec<u8>>>,
    real_value: &Option<Vec<u8>>,
) -> (result: Result<usize, Error>)
    ensures
        ({
            let found = resolution(
                registered(worktrees@),
                value@,
                places@,
                optional_path(*real_value),
            );
            &&& result is Ok <==> found is Ok
            &&& result matches Ok(i) ==> i < worktrees@.len() && found == Ok::<int, Failure>(
                i as int,
            )
            &&& result matches Err(error) ==> found == Err::<int, Failure>(error@)
        }),
{
    let ghost list = registered(worktrees@);
    let ghost test = path_test(list, value@, places@, optional_path(*real_value));
    let mut count: usize = 0;
    let mut first: usize = 0;
    let absent: Option<Vec<u8>> = None;
    for i in 0..worktrees.len()
        invariant
            list == registered(worktrees@),
            test == path_test(list, value@, places@, optional_path(*real_value)),
            absent is None,
            count == positions(i as int, test).len(),
            count <= i,
            count > 0 ==> first as int == positions(i as int, test)[0],
            count > 0 ==> first < i,
    {
        assert(list[i as int].path == worktrees@[i as int].path@);
        let here = if i < places.len() {
            &places[i]
        } else {
            &absent
        };
        if same_path(worktrees[i].path.as_slice(), value, here, real_value) {
            assert(test(i as int));
            if count == 0 {
                first = i;
            }
            count += 1;
        } else {
            assert(!test(i as int));
        }
    }
    if count == 1 {
        return Ok(first);
    }
    let name = text::lossy(value);
    let (count, first) = on_branch(worktrees, name.as_str());
    if count == 1 {
        Ok(first)
    } else if count == 0 {
        Err(Error::WorktreeNotFound(name))
    } else {
        Err(Error::AmbiguousWorktree(name))
    }
}

/// The worktree that `value` names.
pub fn resolve<'a>(
    worktrees: &'a Vec<Worktree>,
    value: &[u8],
    places: &Vec<Option<Vec<u8>>>,
    real_value: &Option<Vec<u8>>,
) -> (result: Result<&'a Worktree, Error>)
    ensures
        ({
            let found = resolution(
                registered(worktrees@),
                value@,
                places@,
                optional_path(*real_value),
            );
            &&& result is Ok <==> found is Ok
            &&& result matches Ok(worktree) ==> *worktree == worktrees@[found->Ok_0]
            &&& result matches Err(error) ==> found == Err::<int, Failure>(error@)
        }),
{
    match find(worktrees, value, places, real_value) {
        Ok(i) => Ok(&worktrees[i]),
        Err(error) => Err(error),
    }
}

/// The worktree at a position is or contains the directory `cwd`, by the texts
/// of their paths or by where they really are.
pub open spec fn contains_directory(
    list: Seq<Registered>,
    cwd: Seq<u8>,
    places: Seq<Option<Vec<u8>>>,
    place: Option<Seq<u8>>,
    i: int,
) -> bool {
    let real_one = real_path(places, i);
    ||| bytes::has_prefix(paths::components(cwd), paths::components(list[i].path))
    ||| real_one is Some && place is Some && bytes::has_prefix(
        paths::components(place->0),
        paths::components(real_one->0),
    )
}

/// How deep a worktree lies, where it really is if that is known.
pub open spec fn depth(list: Seq<Registered>, places: Seq<Option<Vec<u8>>>, i: int) -> int {
    match real_path(places, i) {
        Some(path) => paths::components(path).len() as int,
        None => paths::components(list[i].path).len() as int,
    }
}

/// The innermost of the first `n` worktrees that is or contains the directory
/// `cwd`; of several as deep, the first.
pub open spec fn innermost(
    list: Seq<Registered>,
    cwd: Seq<u8>,
    places: Seq<Option<Vec<u8>>>,
    place: Option<Seq<u8>>,
    n: int,
) -> Option<int>
    decreases n,
{
    if n <= 0 {
        None
    } else {
        let before = innermost(list, cwd, places, place, n - 1);
        if contains_directory(list, cwd, places, place, n - 1) && (before is None || depth(
            list,
            places,
            before->0,
        ) < depth(list, places, n - 1)) {
            Some(n - 1)
        } else {
            before
        }
    }
}

/// The position of the current worktree: the innermost that is or contains the
/// working directory. `places` says where each worktree really is, and `place`
/// where the working directory is.
pub fn current(
    worktrees: &Vec<Worktree>,
    cwd: &[u8],
    places: &Vec<Option<Vec<u8>>>,
    place: &Option<Vec<u8>>,
) -> (found: Option<usize>)
    ensures
        ({
            let inner = innermost(
                registered(worktrees@),
                cwd@,
                places@,
                optional_path(*place),
                worktrees@.len() as int,
            );
            &&& found is Some <==> inner is Some
            &&& found matches Some(i) ==> inner == Some(i as int) && i < worktrees@.len()
        }),
{
    let ghost list = registered(worktrees@);
    let mut found: Option<usize> = None;
    let mut deepest: usize = 0;
    let absent: Option<Vec<u8>> = None;
    for i in 0..worktrees.len()
        invariant
            list == registered(worktrees@),
            absent is None,
            found is Some <==> innermost(
                list,
                cwd@,
                places@,
                optional_path(*place),
                i as int,
            ) is Some,
            found matches Some(k) ==> k < i && innermost(
                list,
                cwd@,
                places@,
                optional_path(*place),
                i as int,
            ) == Some(k as int) && deepest as int == depth(list, places@, k as int),
    {
        assert(list[i as int].path == worktrees@[i as int].path@);
        let here = if i < places.len() {
            &places[i]
        } else {
            &absent
        };
        let by_place = match (here, place) {
            (Some(here), Some(place)) => paths::lies_in(place.as_slice(), here.as_slice()),
            _ => false,
        };
        let inside = by_place || paths::lies_in(cwd, worktrees[i].path.as_slice());
        let parts = match here {
            Some(here) => paths::split_path(here.as_slice()),
            None => paths::split_path(worktrees[i].path.as_slice()),
        };
        proof {
            assert(inside == contains_directory(
                list,
                cwd@,
                places@,
                optional_path(*place),
                i as int,
            ));
            assert(bytes::views(parts@).len() == parts@.len());
            assert(parts@.len() == depth(list, places@, i as int));
        }
        if inside && (found.is_none() || deepest < parts.len()) {
            found = Some(i);
            deepest = parts.len();
        }
    }
    found
}

/// The current worktree is or contains the working directory, and no worktree
/// that does lies deeper. There is one wherever some worktree does.
pub proof fn current_worktree_is_innermost(
    list: Seq<Registered>,
    cwd: Seq<u8>,
    places: Seq<Option<Vec<u8>>>,
    place: Option<Seq<u8>>,
    n: int,
    j: int,
)
    requires
        0 <= j < n,
        contains_directory(list, cwd, places, place, j),
    ensures
        innermost(list, cwd, places, place, n) matches Some(i) && 0 <= i < n
            && contains_directory(list, cwd, places, place, i) && depth(list, places, j) <= depth(
            list,
            places,
            i,
        ),
    decreases n,
{
    if j < n - 1 {
        current_worktree_is_innermost(list, cwd, places, place, n - 1, j);
    } else {
        lemma_innermost(list, cwd, places, place, n - 1);
    }
}

proof fn lemma_innermost(
    list: Seq<Registered>,
    cwd: Seq<u8>,
    places: Seq<Option<Vec<u8>>>,
    place: Option<Seq<u8>>,
    n: int,
)
    ensures
        innermost(list, cwd, places, place, n) matches Some(i) ==> 0 <= i < n
            && contains_directory(list, cwd, places, place, i),
    decreases n,
{
    if n > 0 {
        lemma_innermost(list, cwd, places, place, n - 1);
    }
}

/// A worktree whose path is that of no other is found by its path.
pub proof fn resolves_by_path(list: Seq<Registered>, i: int, places: Seq<Option<Vec<u8>>>)
    requires
        0 <= i < list.len(),
        forall|j: int|
            0 <= j < list.len() && j != i ==> !is_same_path(
                (#[trigger] list[j]).path,
                list[i].path,
                real_path(places, j),
                real_path(places, i),
            ),
    ensures
        resolution(list, list[i].path, places, real_path(places, i)) == Ok::<int, Failure>(i),
{
    let test = path_test(list, list[i].path, places, real_path(places, i));
    lemma_positions(list.len() as int, test);
    let found = positions(list.len() as int, test);
    assert(test(i));
    assert(found.contains(i));
    lemma_positions_ascend(list.len() as int, test);
    if found.len() > 1 {
        assert(test(found[0]) && test(found[1]));
        assert(list[found[0]] == list[found[0]]);
        assert(list[found[1]] == list[found[1]]);
    }
}

pub proof fn lemma_positions_ascend(n: int, test: spec_fn(int) -> bool)
    ensures
        forall|a: int, b: int|
            0 <= a < b < positions(n, test).len() ==> positions(n, test)[a] < positions(n, test)[b],
    decreases n,
{
    if n > 0 {
        lemma_positions_ascend(n - 1, test);
        lemma_positions(n - 1, test);
        let rest = positions(n - 1, test);
        let all = positions(n, test);
        assert forall|a: int, b: int| 0 <= a < b < all.len() implies all[a] < all[b] by {
            assert(all[a] == rest[a]);
            if b < rest.len() {
                assert(all[b] == rest[b]);
            }
        }
    }
}

/// The branch that compaction takes from when none is named: the one that
/// `origin/HEAD` names, else `main`, else `master`.
pub open spec fn inferred(origin: Option<Seq<char>>, main: bool, master: bool) -> Option<
    Seq<char>,
> {
    if origin is Some && bytes::has_prefix(origin->0, "origin/"@) {
        Some(origin->0.skip("origin/"@.len() as int))
    } else if main {
        Some("main"@)
    } else if master {
        Some("master"@)
    } else {
        None
    }
}

/// The default source branch. `origin` is the short name that `origin/HEAD`
/// resolves to; `main` and `master` say whether those branches exist.
pub fn inferred_source(origin: &Option<String>, main: bool, master: bool) -> (result: Result<
    String,
    Error,
>)
    ensures
        ({
            let branch = inferred(text::optional(*origin), main, master);
            &&& result is Ok <==> branch is Some
            &&& result matches Ok(name) ==> branch == Some(name@)
            &&& result matches Err(error) ==> error@ == Failure::Message(
                "could not infer source branch from origin/HEAD, main, or master"@,
            )
        }),
{
    if let Some(name) = origin {
        let chars = text::characters(name.as_str());
        let prefix = text::characters("origin/");
        if prefix.len() <= chars.len() {
            let head = text::text_of(&chars, 0, prefix.len());
            assert(head@ =~= name@.take(prefix@.len() as int));
            if text::same(head.as_str(), "origin/") {
                let rest = text::text_of(&chars, prefix.len(), chars.len());
                assert(rest@ =~= name@.skip("origin/"@.len() as int));
                return Ok(rest);
            }
        }
    }
    if main {
        Ok("main".to_owned())
    } else if master {
        Ok("master".to_owned())
    } else {
        Err(error::message("could not infer source branch from origin/HEAD, main, or master"))
    }
}

/// Why a branch that is not checked out cannot be the source.
pub open spec fn not_checked_out(branch: Seq<char>) -> Seq<char> {
    "default source branch '"@ + branch
        + "' is not checked out; create a worktree for it or pass --source <checked-out-branch-or-path>"@
}

/// The default source: the worktree with the inferred branch, or the error where
/// no branch can be inferred or it is not checked out in one worktree.
pub open spec fn source_choice(list: Seq<Registered>, branch: Option<Seq<char>>) -> Result<
    int,
    Failure,
> {
    match branch {
        None => Err(
            Failure::Message("could not infer source branch from origin/HEAD, main, or master"@),
        ),
        Some(name) => {
            let found = positions(list.len() as int, branch_test(list, name));
            if found.len() == 1 {
                Ok(found[0])
            } else if found.len() == 0 {
                Err(Failure::Message(not_checked_out(name)))
            } else {
                Err(Failure::AmbiguousWorktree(name))
            }
        },
    }
}

/// The worktree that compaction takes from when no source is named: the one in
/// which the inferred branch is checked out.
pub fn default_source(
    worktrees: &Vec<Worktree>,
    origin: &Option<String>,
    main: bool,
    master: bool,
) -> (result: Result<Worktree, Error>)
    ensures
        ({
            let choice = source_choice(
                registered(worktrees@),
                inferred(text::optional(*origin), main, master),
            );
            &&& result is Ok <==> choice is Ok
            &&& result matches Ok(source) ==> source@ == worktrees@[choice->Ok_0]@
                && text::optional(source.branch) == inferred(text::optional(*origin), main, master)
            &&& result matches Err(error) ==> choice == Err::<int, Failure>(error@)
        }),
{
    let branch = inferred_source(origin, main, master)?;
    let ghost list = registered(worktrees@);
    let (count, first) = on_branch(worktrees, branch.as_str());
    if count == 1 {
        proof {
            lemma_positions(list.len() as int, branch_test(list, branch@));
            assert(branch_test(list, branch@)(first as int));
            assert(list[first as int] == worktrees@[first as int]@);
        }
        return Ok(worktrees[first].copy());
    }
    if count > 1 {
        return Err(Error::AmbiguousWorktree(branch));
    }
    let mut message = "default source branch '".to_owned();
    message.append(branch.as_str());
    message.append(
        "' is not checked out; create a worktree for it or pass --source <checked-out-branch-or-path>",
    );
    Err(Error::Message(message))
}

/// Whether files may be taken from a source, or why not. `report` is what Git
/// says of its changes; `tip` is the commit of its branch, where it is on one.
pub open spec fn source_verdict(
    head: Seq<char>,
    report: Seq<u8>,
    tip: Option<Seq<char>>,
) -> Result<(), Failure> {
    if report.len() > 0 {
        Err(Failure::Message("source worktree is not clean"@))
    } else if tip is Some && tip->0 != head {
        Err(Failure::Message("source HEAD is not the tip of its branch"@))
    } else {
        Ok(())
    }
}

/// Accepts a source that is clean and at the tip of its branch.
pub fn check_source(source: &Worktree, report: &[u8], tip: &Option<String>) -> (result: Result<
    (),
    Error,
>)
    ensures
        result is Ok <==> source_verdict(source@.head, report@, text::optional(*tip)) is Ok,
        result matches Err(error) ==> source_verdict(
            source@.head,
            report@,
            text::optional(*tip),
        ) == Err::<(), Failure>(error@),
{
    if report.len() > 0 {
        return Err(error::message("source worktree is not clean"));
    }
    if let Some(tip) = tip {
        if !text::same(tip.as_str(), source.head.as_str()) {
            return Err(error::message("source HEAD is not the tip of its branch"));
        }
    }
    Ok(())
}

/// No field behind the one at `i` begins with `lead`.
pub open spec fn is_last(fields: Seq<Seq<u8>>, lead: Seq<u8>, i: int) -> bool {
    forall|j: int|
        0 <= j && i < j < fields.len() ==> !bytes::has_prefix(#[trigger] fields[j], lead)
}

/// What is between the text `lead` and the end of a field.
proof fn lemma_behind(lead: Seq<u8>, value: Seq<u8>)
    ensures
        bytes::has_prefix(lead + value, lead),
        (lead + value).skip(lead.len() as int) == value,
{
    assert((lead + value).take(lead.len() as int) =~= lead);
    assert((lead + value).skip(lead.len() as int) =~= value);
}

/// The attributes of a record begin differently.
#[verifier::spinoff_prover]
proof fn lemma_leads(field: Seq<u8>)
    ensures
        bytes::has_prefix(field, "worktree ".spec_bytes()) ==> field.len() > 0 && field[0] == 119,
        bytes::has_prefix(field, "HEAD ".spec_bytes()) ==> field.len() > 0 && field[0] == 72,
        bytes::has_prefix(field, "branch ".spec_bytes()) ==> field.len() > 0 && field[0] == 98,
        bytes::has_prefix(field, "locked ".spec_bytes()) ==> field.len() > 0 && field[0] == 108,
        field == "locked".spec_bytes() ==> field.len() > 0 && field[0] == 108,
{
    reveal_strlit("worktree ");
    text::lemma_ascii_bytes("worktree ");
    reveal_strlit("HEAD ");
    text::lemma_ascii_bytes("HEAD ");
    reveal_strlit("branch ");
    text::lemma_ascii_bytes("branch ");
    reveal_strlit("locked ");
    text::lemma_ascii_bytes("locked ");
    reveal_strlit("locked");
    text::lemma_ascii_bytes("locked");
    if bytes::has_prefix(field, "worktree ".spec_bytes()) {
        assert(field.take(9)[0] == field[0]);
    }
    if bytes::has_prefix(field, "HEAD ".spec_bytes()) {
        assert(field.take(5)[0] == field[0]);
    }
    if bytes::has_prefix(field, "branch ".spec_bytes()) {
        assert(field.take(7)[0] == field[0]);
    }
    if bytes::has_prefix(field, "locked ".spec_bytes()) {
        assert(field.take(7)[0] == field[0]);
    }
}

/// What a record's fields come to, each attribute by the last field that has it.
proof fn lemma_read_last(fields: Seq<Seq<u8>>)
    requires
        forall|i: int| 0 <= i < fields.len() ==> (#[trigger] fields[i]).len() > 0,
    ensures
        ({
            let state = read_fields(fields);
            &&& forall|i: int, p: Seq<u8>|
                0 <= i < fields.len() && #[trigger] fields[i] == #[trigger] ("worktree ".spec_bytes()
                    + p) && is_last(fields, "worktree ".spec_bytes(), i) ==> state.path == Some(p)
            &&& forall|i: int, h: Seq<u8>|
                0 <= i < fields.len() && #[trigger] fields[i] == #[trigger] ("HEAD ".spec_bytes()
                    + h) && is_last(fields, "HEAD ".spec_bytes(), i) ==> state.head == Some(
                    text::lossy_text(h),
                )
            &&& forall|i: int, reference: Seq<u8>|
                0 <= i < fields.len() && #[trigger] fields[i] == #[trigger] ("branch ".spec_bytes()
                    + reference) && is_last(fields, "branch ".spec_bytes(), i) ==> state.branch
                    == Some(text::lossy_text(without_heads(reference)))
            &&& is_last(fields, "branch ".spec_bytes(), -1) ==> state.branch is None
            &&& state.locked <==> exists|i: int|
                0 <= i < fields.len() && (#[trigger] fields[i] == "locked".spec_bytes()
                    || bytes::has_prefix(fields[i], "locked ".spec_bytes()))
        }),
    decreases fields.len(),
{
    if fields.len() > 0 {
        let init = fields.drop_last();
        let n = fields.len() - 1;
        let last = fields[n];
        assert forall|i: int| 0 <= i < init.len() implies (#[trigger] init[i]).len() > 0 by {
            assert(init[i] == fields[i]);
        }
        lemma_read_last(init);
        lemma_leads(last);
        assert(last == fields.last() && last.len() > 0);
        let before = read_fields(init);
        let state = read_fields(fields);
        assert(state == before.read(last));
        lemma_shorter(fields, "worktree ".spec_bytes());
        lemma_shorter(fields, "HEAD ".spec_bytes());
        lemma_shorter(fields, "branch ".spec_bytes());
        assert forall|i: int, p: Seq<u8>|
            0 <= i < fields.len() && #[trigger] fields[i] == #[trigger] ("worktree ".spec_bytes()
                + p) && is_last(fields, "worktree ".spec_bytes(), i) implies state.path == Some(
            p,
        ) by {
            lemma_behind("worktree ".spec_bytes(), p);
            if i < n {
                assert(init[i] == fields[i]);
                assert(!bytes::has_prefix(fields[n], "worktree ".spec_bytes()));
                assert(init[i] == "worktree ".spec_bytes() + p);
            }
        }
        assert forall|i: int, h: Seq<u8>|
            0 <= i < fields.len() && #[trigger] fields[i] == #[trigger] ("HEAD ".spec_bytes() + h)
                && is_last(fields, "HEAD ".spec_bytes(), i) implies state.head == Some(
            text::lossy_text(h),
        ) by {
            lemma_behind("HEAD ".spec_bytes(), h);
            if i < n {
                assert(init[i] == fields[i]);
                assert(!bytes::has_prefix(fields[n], "HEAD ".spec_bytes()));
                assert(init[i] == "HEAD ".spec_bytes() + h);
            }
        }
        assert forall|i: int, reference: Seq<u8>|
            0 <= i < fields.len() && #[trigger] fields[i] == #[trigger] ("branch ".spec_bytes()
                + reference) && is_last(fields, "branch ".spec_bytes(), i) implies state.branch
            == Some(text::lossy_text(without_heads(reference))) by {
            lemma_behind("branch ".spec_bytes(), reference);
            if i < n {
                assert(init[i] == fields[i]);
                assert(!bytes::has_prefix(fields[n], "branch ".spec_bytes()));
                assert(init[i] == "branch ".spec_bytes() + reference);
            }
        }
        if is_last(fields, "branch ".spec_bytes(), -1) {
            assert(!bytes::has_prefix(fields[n], "branch ".spec_bytes()));
        }
        let locks = last == "locked".spec_bytes() || bytes::has_prefix(
            last,
            "locked ".spec_bytes(),
        );
        assert(state.locked == (before.locked || locks));
        if before.locked {
            let i = choose|i: int|
                0 <= i < init.len() && (#[trigger] init[i] == "locked".spec_bytes()
                    || bytes::has_prefix(init[i], "locked ".spec_bytes()));
            assert(fields[i] == init[i]);
        }
        if locks {
            assert(fields[n] == last);
        }
        if exists|i: int|
            0 <= i < fields.len() && (#[trigger] fields[i] == "locked".spec_bytes()
                || bytes::has_prefix(fields[i], "locked ".spec_bytes())) {
            let i = choose|i: int|
                0 <= i < fields.len() && (#[trigger] fields[i] == "locked".spec_bytes()
                    || bytes::has_prefix(fields[i], "locked ".spec_bytes()));
            if i < n {
                assert(init[i] == fields[i]);
            }
        }
    }
}

proof fn lemma_shorter(fields: Seq<Seq<u8>>, lead: Seq<u8>)
    requires
        fields.len() > 0,
    ensures
        forall|i: int| #[trigger] is_last(fields, lead, i) ==> is_last(fields.drop_last(), lead, i),
{
    let init = fields.drop_last();
    assert forall|i: int| #[trigger] is_last(fields, lead, i) implies is_last(init, lead, i) by {
        assert forall|j: int| 0 <= j && i < j < init.len() implies !bytes::has_prefix(
            #[trigger] init[j],
            lead,
        ) by {
            assert(init[j] == fields[j]);
        }
    }
}

/// The worktree of a record has the path, head and branch that the record
/// gives, in full: of a branch what stands behind `refs/heads/`, or the
/// reference as it is where it is no branch's. It is locked where the record
/// says so.
pub proof fn worktrees_are_as_recorded(raw: Seq<u8>, records: Seq<Seq<Seq<u8>>>, r: int, i: int)
    requires
        lists_records(raw, records),
        0 <= r < records.len(),
        0 <= i < records[r].len(),
    ensures
        porcelain(raw).len() == records.len(),
        ({
            let fields = records[r];
            let worktree = porcelain(raw)[r];
            &&& forall|path: Seq<u8>|
                fields[i] == #[trigger] ("worktree ".spec_bytes() + path) && is_last(
                    fields,
                    "worktree ".spec_bytes(),
                    i,
                ) ==> worktree.path == path
            &&& forall|head: Seq<u8>|
                fields[i] == #[trigger] ("HEAD ".spec_bytes() + head) && is_last(
                    fields,
                    "HEAD ".spec_bytes(),
                    i,
                ) ==> worktree.head == text::lossy_text(head)
            &&& forall|name: Seq<u8>|
                fields[i] == "branch ".spec_bytes() + #[trigger] ("refs/heads/".spec_bytes() + name)
                    && is_last(fields, "branch ".spec_bytes(), i) ==> worktree.branch == Some(
                    text::lossy_text(name),
                )
            &&& forall|reference: Seq<u8>|
                fields[i] == #[trigger] ("branch ".spec_bytes() + reference) && !bytes::has_prefix(
                    reference,
                    "refs/heads/".spec_bytes(),
                ) && is_last(fields, "branch ".spec_bytes(), i) ==> worktree.branch == Some(
                    text::lossy_text(reference),
                )
            &&& is_last(fields, "branch ".spec_bytes(), -1) ==> worktree.branch is None
            &&& worktree.locked <==> exists|k: int|
                0 <= k < fields.len() && (#[trigger] fields[k] == "locked".spec_bytes()
                    || bytes::has_prefix(fields[k], "locked ".spec_bytes()))
        }),
{
    let fields = records[r];
    records_are_read_alone(raw, records);
    assert(is_record(records[r]));
    lemma_read_last(fields);
    let worktree = porcelain(raw)[r];
    assert(worktree == recorded(fields));
    assert forall|name: Seq<u8>|
        fields[i] == "branch ".spec_bytes() + #[trigger] ("refs/heads/".spec_bytes() + name)
            && is_last(fields, "branch ".spec_bytes(), i) implies worktree.branch == Some(
        text::lossy_text(name),
    ) by {
        lemma_behind("refs/heads/".spec_bytes(), name);
        assert(fields[i] == "branch ".spec_bytes() + ("refs/heads/".spec_bytes() + name));
    }
}

/// What was read last is complete without an empty field behind it, and what
/// has no path or no head is left out.
pub proof fn incomplete_records_are_left_out(state: Listing)
    ensures
        state.path is None || state.head is None ==> state.finish().done == state.done,
        state.path is Some && state.head is Some ==> state.finish().done == state.done.push(
            Registered {
                path: state.path->0,
                head: state.head->0,
                branch: state.branch,
                locked: state.locked,
            },
        ),
        state.finish().path is None && state.finish().head is None,
        state.path is Some && state.head is Some ==> state.finish().branch is None
            && !state.finish().locked,
{
}

/// One position below `n` passes the test, and no other does.
pub open spec fn is_only(n: int, test: spec_fn(int) -> bool, i: int) -> bool {
    0 <= i < n && test(i) && forall|j: int| 0 <= j < n && j != i ==> !(#[trigger] test(j))
}

/// No position below `n` passes the test.
pub open spec fn is_none(n: int, test: spec_fn(int) -> bool) -> bool {
    forall|i: int| 0 <= i < n ==> !(#[trigger] test(i))
}

/// What the positions that pass a test come to.
pub proof fn positions_are_those_that_pass(n: int, test: spec_fn(int) -> bool)
    ensures
        forall|i: int| positions(n, test).contains(i) <==> 0 <= i < n && test(i),
        forall|a: int, b: int|
            0 <= a < b < positions(n, test).len() ==> positions(n, test)[a] < positions(n, test)[b],
        positions(n, test).len() == 0 <==> is_none(n, test),
        positions(n, test).len() == 1 <==> exists|i: int| is_only(n, test, i),
        forall|i: int|
            #[trigger] is_only(n, test, i) ==> positions(n, test) == seq![i] && positions(n, test)[0]
                == i,
{
    lemma_positions(n, test);
    lemma_positions_ascend(n, test);
    let all = positions(n, test);
    assert forall|i: int| all.contains(i) implies 0 <= i < n && test(i) by {
        let k = choose|k: int| 0 <= k < all.len() && all[k] == i;
        assert(0 <= all[k] < n && test(all[k]));
    }
    if all.len() > 0 {
        assert(all.contains(all[0]));
        assert(test(all[0]));
    } else {
        assert forall|i: int| 0 <= i < n implies !(#[trigger] test(i)) by {
            if test(i) {
                assert(all.contains(i));
            }
        }
    }
    assert forall|i: int| #[trigger] is_only(n, test, i) implies all == seq![i] && all[0] == i by {
        assert(all.contains(i));
        assert(all[0] == i) by {
            assert(test(all[0]));
        }
        if all.len() > 1 {
            assert(test(all[1]));
            assert(all[0] < all[1]);
        }
        assert(all =~= seq![i]);
    }
    if all.len() == 1 {
        assert forall|j: int| 0 <= j < n && j != all[0] implies !(#[trigger] test(j)) by {
            if test(j) {
                assert(all.contains(j));
            }
        }
        assert(is_only(n, test, all[0]));
    }
}

/// The worktree at a position stands at the path `value`, by the components of
/// the two or by those of where they really are.
pub open spec fn stands_at(
    list: Seq<Registered>,
    places: Seq<Option<Vec<u8>>>,
    value: Seq<u8>,
    real_value: Option<Seq<u8>>,
) -> spec_fn(int) -> bool {
    |i: int|
        paths::components(list[i].path) == paths::components(value) || (0 <= i < places.len()
            && places[i] is Some && real_value is Some && paths::components(places[i]->0@)
            == paths::components(real_value->0))
}

/// A worktree is on a branch.
pub open spec fn is_on(list: Seq<Registered>, name: Seq<char>) -> spec_fn(int) -> bool {
    |i: int| list[i].branch is Some && list[i].branch->0 == name
}

/// A value names the one worktree that stands at it. Where not just one does, it
/// names the one worktree on the branch of this name; without one, and with
/// several, there is an error.
pub proof fn values_name_worktrees(
    list: Seq<Registered>,
    value: Seq<u8>,
    places: Seq<Option<Vec<u8>>>,
    real_value: Option<Seq<u8>>,
    i: int,
)
    ensures
        ({
            let n = list.len() as int;
            let here = stands_at(list, places, value, real_value);
            let name = text::lossy_text(value);
            let named = is_on(list, name);
            let found = resolution(list, value, places, real_value);
            let at_one_path = exists|k: int| is_only(n, here, k);
            &&& is_only(n, here, i) ==> found == Ok::<int, Failure>(i)
            &&& !at_one_path && is_only(n, named, i) ==> found == Ok::<int, Failure>(i)
            &&& !at_one_path && is_none(n, named) ==> found == Err::<
                int,
                Failure,
            >(Failure::WorktreeNotFound(name))
            &&& !at_one_path && !is_none(n, named) && !(exists|k: int|
                is_only(n, named, k)) ==> found == Err::<int, Failure>(
                Failure::AmbiguousWorktree(name),
            )
        }),
{
    let n = list.len() as int;
    let here = stands_at(list, places, value, real_value);
    let named = is_on(list, text::lossy_text(value));
    let by_path = path_test(list, value, places, real_value);
    let by_branch = branch_test(list, text::lossy_text(value));
    assert forall|k: int| #[trigger] here(k) == by_path(k) by {}
    assert forall|k: int| #[trigger] named(k) == by_branch(k) by {}
    lemma_same_positions(n, here, by_path);
    lemma_same_positions(n, named, by_branch);
    positions_are_those_that_pass(n, here);
    positions_are_those_that_pass(n, named);
    if is_only(n, here, i) {
        assert(positions(n, by_path)[0] == i);
    }
    if is_only(n, named, i) {
        assert(positions(n, by_branch)[0] == i);
    }
}

proof fn lemma_same_positions(n: int, one: spec_fn(int) -> bool, other: spec_fn(int) -> bool)
    requires
        forall|k: int| #[trigger] one(k) == other(k),
    ensures
        positions(n, one) == positions(n, other),
    decreases n,
{
    if n > 0 {
        lemma_same_positions(n - 1, one, other);
    }
}

/// The default branch is the one that `origin/HEAD` names, and otherwise `main`
/// or else `master`, where it exists.
pub proof fn default_branch_is_that_of_the_origin(
    name: Seq<char>,
    origin: Option<Seq<char>>,
    main: bool,
    master: bool,
)
    ensures
        inferred(Some("origin/"@ + name), main, master) == Some(name),
        (origin matches Some(text) ==> forall|rest: Seq<char>| text != "origin/"@ + rest) ==> {
            &&& inferred(origin, true, master) == Some("main"@)
            &&& inferred(origin, false, true) == Some("master"@)
            &&& inferred(origin, false, false) is None
        },
{
    let lead = "origin/"@;
    assert((lead + name).take(lead.len() as int) =~= lead);
    assert((lead + name).skip(lead.len() as int) =~= name);
    if origin is Some && bytes::has_prefix(origin->0, lead) {
        let text = origin->0;
        assert(text =~= text.take(lead.len() as int) + text.skip(lead.len() as int));
        assert(text == lead + text.skip(lead.len() as int));
    }
}

/// The default source is the one worktree on the default branch.
pub proof fn default_source_is_on_the_branch(list: Seq<Registered>, name: Seq<char>, i: int)
    ensures
        ({
            let n = list.len() as int;
            let named = is_on(list, name);
            let choice = source_choice(list, Some(name));
            &&& is_only(n, named, i) ==> choice == Ok::<int, Failure>(i)
            &&& is_none(n, named) ==> choice == Err::<int, Failure>(
                Failure::Message(
                    "default source branch '"@ + name
                        + "' is not checked out; create a worktree for it or pass --source <checked-out-branch-or-path>"@,
                ),
            )
            &&& !is_none(n, named) && !(exists|k: int| is_only(n, named, k))
                ==> choice == Err::<int, Failure>(Failure::AmbiguousWorktree(name))
        }),
        source_choice(list, None) is Err,
{
    let n = list.len() as int;
    let named = is_on(list, name);
    let by_branch = branch_test(list, name);
    assert forall|k: int| #[trigger] named(k) == by_branch(k) by {}
    lemma_same_positions(n, named, by_branch);
    positions_are_those_that_pass(n, named);
    if is_only(n, named, i) {
        assert(positions(n, by_branch)[0] == i);
    }
}

/// A source is taken where nothing in it changed and its head is the tip of its
/// branch, if it is on one.
pub proof fn sources_are_clean_and_at_the_tip(
    head: Seq<char>,
    report: Seq<u8>,
    tip: Option<Seq<char>>,
)
    ensures
        source_verdict(head, report, tip) is Ok <==> report == Seq::<u8>::empty() && (tip is None
            || tip == Some(head)),
        report != Seq::<u8>::empty() ==> source_verdict(head, report, tip) == Err::<(), Failure>(
            Failure::Message("source worktree is not clean"@),
        ),
{
    if report.len() == 0 {
        assert(report =~= Seq::<u8>::empty());
    }
}

/// The directory `cwd`, which really is at `place`, is or lies in the worktree at
/// a position.
pub open spec fn holds_directory(
    list: Seq<Registered>,
    cwd: Seq<u8>,
    places: Seq<Option<Vec<u8>>>,
    place: Option<Seq<u8>>,
    i: int,
) -> bool {
    ||| exists|rest: Seq<Seq<u8>>|
        paths::components(cwd) == #[trigger] (paths::components(list[i].path) + rest)
    ||| 0 <= i < places.len() && places[i] is Some && place is Some && exists|rest: Seq<Seq<u8>>|
        paths::components(place->0) == #[trigger] (paths::components(places[i]->0@) + rest)
}

/// How many components the path of a worktree has, where it really is if that is
/// known.
pub open spec fn length_of(list: Seq<Registered>, places: Seq<Option<Vec<u8>>>, i: int) -> int {
    if 0 <= i < places.len() && places[i] is Some {
        paths::components(places[i]->0@).len() as int
    } else {
        paths::components(list[i].path).len() as int
    }
}

proof fn lemma_begins(whole: Seq<Seq<u8>>, start: Seq<Seq<u8>>)
    ensures
        bytes::has_prefix(whole, start) <==> exists|rest: Seq<Seq<u8>>|
            whole == #[trigger] (start + rest),
{
    if bytes::has_prefix(whole, start) {
        assert(whole =~= start + whole.skip(start.len() as int));
    }
    if exists|rest: Seq<Seq<u8>>| whole == #[trigger] (start + rest) {
        let rest = choose|rest: Seq<Seq<u8>>| whole == #[trigger] (start + rest);
        assert((start + rest).take(start.len() as int) =~= start);
    }
}

proof fn lemma_holds(
    list: Seq<Registered>,
    cwd: Seq<u8>,
    places: Seq<Option<Vec<u8>>>,
    place: Option<Seq<u8>>,
    i: int,
)
    ensures
        contains_directory(list, cwd, places, place, i) <==> holds_directory(
            list,
            cwd,
            places,
            place,
            i,
        ),
        depth(list, places, i) == length_of(list, places, i),
{
    lemma_begins(paths::components(cwd), paths::components(list[i].path));
    if 0 <= i < places.len() && places[i] is Some && place is Some {
        lemma_begins(paths::components(place->0), paths::components(places[i]->0@));
    }
}

/// The current worktree holds the working directory, and of those that do it has
/// the longest path; of several as long it is the first. There is none only
/// where no worktree holds the directory.
pub proof fn current_worktree_holds_the_directory(
    list: Seq<Registered>,
    cwd: Seq<u8>,
    places: Seq<Option<Vec<u8>>>,
    place: Option<Seq<u8>>,
    n: int,
)
    ensures
        match innermost(list, cwd, places, place, n) {
            None => forall|j: int|
                0 <= j < n ==> !#[trigger] holds_directory(list, cwd, places, place, j),
            Some(i) => {
                &&& 0 <= i < n
                &&& holds_directory(list, cwd, places, place, i)
                &&& forall|j: int|
                    0 <= j < n && #[trigger] holds_directory(list, cwd, places, place, j)
                        ==> length_of(list, places, j) < length_of(list, places, i) || (length_of(
                        list,
                        places,
                        j,
                    ) == length_of(list, places, i) && i <= j)
            },
        },
    decreases n,
{
    if n > 0 {
        current_worktree_holds_the_directory(list, cwd, places, place, n - 1);
        lemma_holds(list, cwd, places, place, n - 1);
        let before = innermost(list, cwd, places, place, n - 1);
        if before is Some {
            lemma_holds(list, cwd, places, place, before->0);
        }
    }
}

/// Worktrees are seen as they are, each by its path, its head, its branch and
/// whether it is locked.
pub proof fn worktrees_are_seen_as_they_are(list: Seq<Worktree>, i: int)
    requires
        0 <= i < list.len(),
    ensures
        registered(list).len() == list.len(),
        registered(list)[i].path == list[i].path@,
        registered(list)[i].head == list[i].head@,
        registered(list)[i].branch is Some <==> list[i].branch is Some,
        list[i].branch is Some ==> registered(list)[i].branch->0 == list[i].branch->0@,
        registered(list)[i].locked == list[i].locked,
{
}

/// A worktree is called by its branch, and by its path where it has none.
pub proof fn worktrees_are_called_by_their_branch(worktree: Registered)
    ensures
        worktree.branch is Some ==> worktree.label() == worktree.branch->0,
        worktree.branch is None ==> worktree.label() == text::lossy_text(worktree.path),
{
}

} // verus!
