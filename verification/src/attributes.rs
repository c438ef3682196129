//! Which files Git checks out byte for byte.
use crate::bytes;
use crate::error;
use crate::error::{Error, Failure};
use crate::git;
use crate::git::TreeEntry;
use crate::pathmap::PathMap;
use crate::paths;
use crate::process;
use crate::process::ProcessOutput;
use crate::text;
use vstd::prelude::*;
use vstd::string::*;

verus! {

/// The error of a configuration that cannot be read.
pub open spec fn config_failure(output: ProcessOutput) -> Failure {
    Failure::Git(text::lossy_text(output.stderr@))
}

/// The value of a configuration variable, from what Git printed; empty where it
/// is not set.
pub fn config(output: ProcessOutput) -> (result: Result<String, Error>)
    ensures
        result is Ok <==> output.succeeded() || output.code == Some(1i32),
        result matches Ok(value) ==> value@ == (if output.succeeded() {
            text::trim(text::lossy_text(output.stdout@))
        } else {
            Seq::<char>::empty()
        }),
        result matches Err(error) ==> error@ == config_failure(output),
{
    if output.success() {
        return Ok(process::trimmed_text(output.stdout.as_slice()));
    }
    if let Some(code) = output.code {
        if code == 1 {
            return Ok(String::new());
        }
    }
    Err(Error::Git(text::lossy(output.stderr.as_slice())))
}

/// The value of a configuration switch, from what Git printed; off where it is
/// not set.
pub fn config_bool(output: ProcessOutput) -> (result: Result<bool, Error>)
    ensures
        result is Ok <==> output.succeeded() || output.code == Some(1i32),
        result matches Ok(on) ==> on == (output.succeeded() && output.stdout@
            == "true\n".spec_bytes()),
        result matches Err(error) ==> error@ == config_failure(output),
{
    if output.success() {
        return Ok(bytes::equal(output.stdout.as_slice(), "true\n".as_bytes()));
    }
    if let Some(code) = output.code {
        if code == 1 {
            return Ok(false);
        }
    }
    Err(Error::Git(text::lossy(output.stderr.as_slice())))
}

pub open spec fn lower(c: char) -> char {
    if 'A' <= c <= 'Z' {
        (c as u32 + 32) as char
    } else {
        c
    }
}

/// Two texts are equal but for the case of ASCII letters.
pub open spec fn equal_but_case(a: Seq<char>, b: Seq<char>) -> bool {
    a.len() == b.len() && forall|i: int| 0 <= i < a.len() ==> lower(#[trigger] a[i]) == lower(b[i])
}

fn lowered(c: char) -> (result: char)
    ensures
        result == lower(c),
{
    if 'A' <= c && c <= 'Z' {
        let byte: u8 = c as u8;
        (byte + 32) as char
    } else {
        c
    }
}

fn same_but_case(a: &str, b: &str) -> (yes: bool)
    ensures
        yes == equal_but_case(a@, b@),
{
    let left = text::characters(a);
    let right = text::characters(b);
    if left.len() != right.len() {
        return false;
    }
    for i in 0..left.len()
        invariant
            left@ == a@,
            right@ == b@,
            left@.len() == right@.len(),
            forall|j: int| 0 <= j < i ==> lower(#[trigger] left@[j]) == lower(right@[j]),
    {
        if lowered(left[i]) != lowered(right[i]) {
            return false;
        }
    }
    true
}

/// Whether a checkout converts line endings: where `core.autocrlf` is on, and
/// where `core.eol` asks for it, but not for `core.autocrlf=input`. `switched`
/// is `core.autocrlf` as a switch.
pub fn converts_lines(autocrlf: &str, switched: bool, eol: &str) -> (yes: bool)
    ensures
        yes == (autocrlf@ != "input"@ && (switched || equal_but_case(eol@, "crlf"@))),
{
    !text::same(autocrlf, "input") && (switched || same_but_case(eol, "crlf"))
}

/// The number of attributes that are asked for.
pub const ATTRIBUTES: usize = 5;

/// The number of fields that Git prints for a path: path, name and value of
/// each attribute.
pub const FIELDS: usize = 15;

/// The value of an attribute that changes nothing.
pub open spec fn is_plain(value: Seq<u8>) -> bool {
    value == "unspecified".spec_bytes() || value == "unset".spec_bytes()
}

/// The attributes of the record `i` say that its file is no text.
pub open spec fn text_unset(fields: Seq<Seq<u8>>, i: int) -> bool {
    exists|k: int|
        0 <= k < ATTRIBUTES && #[trigger] fields[i * FIELDS + k * 3 + 1] == "text".spec_bytes()
            && fields[i * FIELDS + k * 3 + 2] == "unset".spec_bytes()
}

/// An attribute of the record `i` asks for something.
pub open spec fn asks(fields: Seq<Seq<u8>>, i: int) -> bool {
    exists|k: int| 0 <= k < ATTRIBUTES && !is_plain(#[trigger] fields[i * FIELDS + k * 3 + 2])
}

/// The record `i` forbids taking its file over byte for byte.
pub open spec fn forbids(fields: Seq<Seq<u8>>, i: int, converts: bool) -> bool {
    asks(fields, i) || (converts && !text_unset(fields, i))
}

/// The paths of the regular entries.
pub open spec fn regular_paths(entries: Seq<git::Entry>) -> Set<Seq<Seq<u8>>>
    decreases entries.len(),
{
    if entries.len() == 0 {
        Set::empty()
    } else if entries.last().regular {
        regular_paths(entries.drop_last()).insert(paths::components(entries.last().path))
    } else {
        regular_paths(entries.drop_last())
    }
}

/// Those paths without the ones that the first `n` records forbid.
pub open spec fn safe_paths(
    regular: Set<Seq<Seq<u8>>>,
    fields: Seq<Seq<u8>>,
    converts: bool,
    n: int,
) -> Set<Seq<Seq<u8>>>
    decreases n,
{
    if n <= 0 {
        regular
    } else {
        let before = safe_paths(regular, fields, converts, n - 1);
        if forbids(fields, n - 1, converts) {
            before.remove(paths::components(fields[(n - 1) * FIELDS]))
        } else {
            before
        }
    }
}

/// The paths with a mark.
pub open spec fn marked(marks: Map<Seq<Seq<u8>>, bool>) -> Set<Seq<Seq<u8>>> {
    Set::new(|key: Seq<Seq<u8>>| marks.contains_key(key) && marks[key])
}

/// The paths that may be taken over byte for byte.
pub struct SafePaths {
    marks: PathMap<bool>,
}

impl SafePaths {
    pub closed spec fn view(&self) -> Set<Seq<Seq<u8>>> {
        marked(self.marks@)
    }

    #[verifier::type_invariant]
    closed spec fn inv(&self) -> bool {
        self.marks.wf()
    }

    /// No path.
    pub fn none() -> (safe: Self)
        ensures
            safe@ == Set::<Seq<Seq<u8>>>::empty(),
    {
        let safe = SafePaths { marks: PathMap::new() };
        assert(safe@ =~= Set::<Seq<Seq<u8>>>::empty());
        safe
    }

    pub fn contains(&self, path: &[u8]) -> (yes: bool)
        ensures
            yes == self@.contains(paths::components(path@)),
    {
        proof {
            use_type_invariant(self);
        }
        match self.marks.get(path) {
            Some(mark) => mark,
            None => false,
        }
    }
}

/// The listing of attributes has one record for each entry.
pub open spec fn well_formed(fields: Seq<Seq<u8>>, entries: int) -> bool {
    fields.last().len() == 0 && fields.len() == entries * FIELDS + 1
}

/// The paths that may be taken over byte for byte: regular files without
/// attributes that ask for a filter, a conversion or an expansion. `listing` is
/// what Git printed of their attributes. Values can be empty, so empty fields count.
#[verifier::loop_isolation(false)]
pub fn checkout_safe(entries: &Vec<TreeEntry>, listing: &[u8], converts: bool) -> (result: Result<
    SafePaths,
    Error,
>)
    ensures
        ({
            let fields = bytes::split(listing@, 0);
            let all = git::entries(entries@);
            &&& result is Ok <==> all.len() == 0 || well_formed(fields, all.len() as int)
            &&& result matches Ok(safe) ==> safe@ == (if all.len() == 0 {
                Set::<Seq<Seq<u8>>>::empty()
            } else {
                safe_paths(regular_paths(all), fields, converts, all.len() as int)
            })
            &&& result matches Err(error) ==> error@ == Failure::Message(
                "malformed checkout attribute inventory"@,
            )
        }),
{
    let ghost all = git::entries(entries@);
    if entries.len() == 0 {
        return Ok(SafePaths::none());
    }
    let mut marks: PathMap<bool> = PathMap::new();
    let fields = bytes::parts(listing, 0);
    let ghost split = bytes::split(listing@, 0);
    proof {
        bytes::lemma_split_len(listing@, 0u8);
        assert(split.last() == fields@[fields@.len() - 1]@);
    }
    let count: usize = fields.len() - 1;
    if fields[count].len() != 0 || count % FIELDS != 0 || count / FIELDS != entries.len() {
        assert(!well_formed(split, all.len() as int)) by {
            assert((all.len() * 15) % 15 == 0 && (all.len() * 15) / 15 == all.len()) by (
            nonlinear_arith);
        }
        return Err(error::message("malformed checkout attribute inventory"));
    }
    assert(count == all.len() * FIELDS);
    let ghost regular = regular_paths(all);
    assert(all.take(0) =~= Seq::<git::Entry>::empty());
    for i in 0..entries.len()
        invariant
            marks.wf(),
            forall|key: Seq<Seq<u8>>| #[trigger] marks@.contains_key(key) ==> marks@[key],
            marks@.dom() =~= regular_paths(all.take(i as int)),
    {
        assert(all.take(i + 1).drop_last() =~= all.take(i as int));
        assert(all.take(i + 1).last() == entries@[i as int]@);
        if entries[i].regular {
            marks.insert(entries[i].path.as_slice(), true);
        }
    }
    assert(all.take(all.len() as int) =~= all);
    assert(marked(marks@) =~= regular);
    for i in 0..entries.len()
        invariant
            marks.wf(),
            marked(marks@) == safe_paths(regular, split, converts, i as int),
    {
        let base: usize = i * FIELDS;
        assert(i * 15 + 15 <= all.len() * 15) by (nonlinear_arith)
            requires
                i + 1 <= all.len(),
        ;
        let mut unset = false;
        let mut asked = false;
        for k in 0..ATTRIBUTES
            invariant
                unset == exists|j: int|
                    0 <= j < k && #[trigger] split[i * FIELDS + j * 3 + 1] == "text".spec_bytes()
                        && split[i * FIELDS + j * 3 + 2] == "unset".spec_bytes(),
                asked == exists|j: int|
                    0 <= j < k && !is_plain(#[trigger] split[i * FIELDS + j * 3 + 2]),
        {
            let name = fields[base + k * 3 + 1].as_slice();
            let value = fields[base + k * 3 + 2].as_slice();
            assert(split[i * FIELDS + k * 3 + 1] == name@);
            assert(split[i * FIELDS + k * 3 + 2] == value@);
            let is_unset = bytes::equal(value, "unset".as_bytes());
            if bytes::equal(name, "text".as_bytes()) && is_unset {
                unset = true;
            }
            if !is_unset && !bytes::equal(value, "unspecified".as_bytes()) {
                asked = true;
            }
        }
        assert(unset == text_unset(split, i as int));
        assert(asked == asks(split, i as int));
        if asked || (converts && !unset) {
            let path = fields[base].as_slice();
            assert(split[i * FIELDS] == path@);
            marks.insert(path, false);
        }
        assert(marked(marks@) =~= safe_paths(regular, split, converts, i + 1));
    }
    let safe = SafePaths { marks };
    assert(safe@ =~= safe_paths(regular, split, converts, all.len() as int));
    Ok(safe)
}

/// A path that a record forbids is not safe.
pub proof fn forbidden_paths_are_not_safe(
    regular: Set<Seq<Seq<u8>>>,
    fields: Seq<Seq<u8>>,
    converts: bool,
    n: int,
    i: int,
)
    requires
        0 <= i < n,
        forbids(fields, i, converts),
    ensures
        !safe_paths(regular, fields, converts, n).contains(paths::components(fields[i * FIELDS])),
    decreases n,
{
    if i < n - 1 {
        forbidden_paths_are_not_safe(regular, fields, converts, n - 1, i);
    }
}

/// Which paths are the regular ones.
pub proof fn regular_paths_are_those_of_regular_entries(
    entries: Seq<git::Entry>,
    key: Seq<Seq<u8>>,
)
    ensures
        regular_paths(entries).contains(key) <==> exists|e: int|
            0 <= e < entries.len() && (#[trigger] entries[e]).regular && paths::components(
                entries[e].path,
            ) == key,
    decreases entries.len(),
{
    if entries.len() > 0 {
        let init = entries.drop_last();
        regular_paths_are_those_of_regular_entries(init, key);
        if regular_paths(init).contains(key) {
            let e = choose|e: int|
                0 <= e < init.len() && (#[trigger] init[e]).regular && paths::components(
                    init[e].path,
                ) == key;
            assert(entries[e] == init[e]);
        }
        if exists|e: int|
            0 <= e < entries.len() && (#[trigger] entries[e]).regular && paths::components(
                entries[e].path,
            ) == key {
            let e = choose|e: int|
                0 <= e < entries.len() && (#[trigger] entries[e]).regular && paths::components(
                    entries[e].path,
                ) == key;
            if e < init.len() {
                assert(init[e] == entries[e]);
            }
        }
        if entries.last().regular && paths::components(entries.last().path) == key {
            assert(entries[entries.len() - 1].regular);
        }
    }
}

/// The five values of a record are each `unspecified` or `unset`.
pub open spec fn has_plain_values(fields: Seq<Seq<u8>>, i: int) -> bool {
    forall|k: int|
        0 <= k < 5 ==> (#[trigger] fields[15 * i + 3 * k + 2] == "unspecified".spec_bytes()
            || fields[15 * i + 3 * k + 2] == "unset".spec_bytes())
}

/// A record says that its file is not text.
pub open spec fn says_no_text(fields: Seq<Seq<u8>>, i: int) -> bool {
    exists|k: int|
        0 <= k < 5 && #[trigger] fields[15 * i + 3 * k + 1] == "text".spec_bytes() && fields[15 * i
            + 3 * k + 2] == "unset".spec_bytes()
}

proof fn lemma_forbids(fields: Seq<Seq<u8>>, i: int, converts: bool)
    ensures
        forbids(fields, i, converts) <==> !has_plain_values(fields, i) || (converts
            && !says_no_text(fields, i)),
{
    assert(asks(fields, i) <==> !has_plain_values(fields, i)) by {
        if asks(fields, i) {
            let k = choose|k: int|
                0 <= k < ATTRIBUTES && !is_plain(#[trigger] fields[i * FIELDS + k * 3 + 2]);
            assert(15 * i + 3 * k + 2 == i * FIELDS + k * 3 + 2);
            assert(!is_plain(fields[15 * i + 3 * k + 2]));
        }
        if !has_plain_values(fields, i) {
            let k = choose|k: int|
                0 <= k < 5 && !(#[trigger] fields[15 * i + 3 * k + 2] == "unspecified".spec_bytes()
                    || fields[15 * i + 3 * k + 2] == "unset".spec_bytes());
            assert(15 * i + 3 * k + 2 == i * FIELDS + k * 3 + 2);
            assert(!is_plain(fields[i * FIELDS + k * 3 + 2]));
        }
    }
    assert(text_unset(fields, i) <==> says_no_text(fields, i)) by {
        if text_unset(fields, i) {
            let k = choose|k: int|
                0 <= k < ATTRIBUTES && #[trigger] fields[i * FIELDS + k * 3 + 1]
                    == "text".spec_bytes() && fields[i * FIELDS + k * 3 + 2]
                    == "unset".spec_bytes();
            assert(15 * i + 3 * k + 1 == i * FIELDS + k * 3 + 1);
            assert(15 * i + 3 * k + 2 == i * FIELDS + k * 3 + 2);
            assert(fields[15 * i + 3 * k + 1] == "text".spec_bytes());
        }
        if says_no_text(fields, i) {
            let k = choose|k: int|
                0 <= k < 5 && #[trigger] fields[15 * i + 3 * k + 1] == "text".spec_bytes()
                    && fields[15 * i + 3 * k + 2] == "unset".spec_bytes();
            assert(15 * i + 3 * k + 1 == i * FIELDS + k * 3 + 1);
            assert(15 * i + 3 * k + 2 == i * FIELDS + k * 3 + 2);
            assert(fields[i * FIELDS + k * 3 + 1] == "text".spec_bytes());
        }
    }
}

proof fn lemma_safe(
    regular: Set<Seq<Seq<u8>>>,
    fields: Seq<Seq<u8>>,
    converts: bool,
    n: int,
    key: Seq<Seq<u8>>,
)
    ensures
        safe_paths(regular, fields, converts, n).contains(key) <==> regular.contains(key)
            && forall|i: int|
            0 <= i < n && paths::components(#[trigger] fields[15 * i]) == key ==> has_plain_values(
                fields,
                i,
            ) && (converts ==> says_no_text(fields, i)),
    decreases n,
{
    if n > 0 {
        lemma_safe(regular, fields, converts, n - 1, key);
        lemma_forbids(fields, n - 1, converts);
        let at = (n - 1) * FIELDS;
        assert(at == 15 * (n - 1));
        assert(fields[at] == fields[15 * (n - 1)]);
        assert forall|i: int|
            safe_paths(regular, fields, converts, n).contains(key) && 0 <= i < n
                && paths::components(#[trigger] fields[15 * i]) == key implies has_plain_values(
            fields,
            i,
        ) && (converts ==> says_no_text(fields, i)) by {
            if i < n - 1 {
                assert(paths::components(fields[15 * i]) == key);
            }
        }
    }
}

/// A path is safe just where a regular entry has it, each of the five values
/// that Git gives for it is `unspecified` or `unset`, and, where line endings
/// are converted, its `text` is unset. The listing has a path and the names and
/// values of five attributes for each entry.
pub proof fn safe_paths_are_plain(
    entries: Seq<git::Entry>,
    fields: Seq<Seq<u8>>,
    converts: bool,
    key: Seq<Seq<u8>>,
)
    ensures
        safe_paths(regular_paths(entries), fields, converts, entries.len() as int).contains(key)
            <==> (exists|e: int|
            0 <= e < entries.len() && (#[trigger] entries[e]).regular && paths::components(
                entries[e].path,
            ) == key) && forall|i: int|
            0 <= i < entries.len() && paths::components(#[trigger] fields[15 * i]) == key
                ==> has_plain_values(fields, i) && (converts ==> says_no_text(fields, i)),
        well_formed(fields, entries.len() as int) <==> fields.len() == 15 * entries.len() + 1
            && fields.last() == Seq::<u8>::empty(),
{
    regular_paths_are_those_of_regular_entries(entries, key);
    lemma_safe(regular_paths(entries), fields, converts, entries.len() as int, key);
    if fields.last().len() == 0 {
        assert(fields.last() =~= Seq::<u8>::empty());
    }
}

/// Case is ignored for the letters of English, and for nothing else.
pub proof fn case_is_ignored(a: Seq<char>, b: Seq<char>)
    requires
        equal_but_case(a, b),
    ensures
        a.len() == b.len(),
        forall|i: int|
            0 <= i < a.len() ==> (#[trigger] a[i] == b[i] || (a[i] as u32 + 32 == b[i] as u32
                && 65 <= a[i] as u32 <= 90) || (b[i] as u32 + 32 == a[i] as u32 && 65 <= b[i] as u32
                <= 90)),
{
    assert forall|i: int| 0 <= i < a.len() implies (#[trigger] a[i] == b[i] || (a[i] as u32 + 32
        == b[i] as u32 && 65 <= a[i] as u32 <= 90) || (b[i] as u32 + 32 == a[i] as u32 && 65
        <= b[i] as u32 <= 90)) by {
        assert(lower(a[i]) == lower(b[i]));
    }
}

} // verus!
