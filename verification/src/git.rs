//! What Git's commands print: path lists, trees and object identities.
use crate::bytes;
use crate::digest;
use crate::eligibility;
use crate::error;
use crate::error::{Error, Failure};
use crate::paths;
use crate::process;
use crate::process::ProcessOutput;
use crate::text;
use vstd::prelude::*;
use vstd::string::*;

verus! {

/// An entry of a Git tree.
#[derive(Debug)]
pub struct TreeEntry {
    pub path: Vec<u8>,
    pub oid: String,
    pub executable: bool,
    pub regular: bool,
    pub gitlink: bool,
    pub tree: bool,
}

/// What a tree entry says.
pub struct Entry {
    pub path: Seq<u8>,
    pub oid: Seq<char>,
    pub executable: bool,
    pub regular: bool,
    pub gitlink: bool,
    pub tree: bool,
}

impl View for TreeEntry {
    type V = Entry;

    open spec fn view(&self) -> Entry {
        Entry {
            path: self.path@,
            oid: self.oid@,
            executable: self.executable,
            regular: self.regular,
            gitlink: self.gitlink,
            tree: self.tree,
        }
    }
}

/// What a list of tree entries says.
pub open spec fn entries(list: Seq<TreeEntry>) -> Seq<Entry> {
    Seq::new(list.len(), |i: int| list[i]@)
}

/// What one record of a tree listing says: mode, kind and object, separated by
/// spaces, then a tab and the path.
pub open spec fn record_entry(record: Seq<u8>) -> Result<Entry, Failure> {
    let tab = bytes::index_of(record, 9);
    let fields = bytes::split(record.take(tab), 32);
    let path = record.skip(tab + 1);
    if tab == record.len() {
        Err(Failure::Message("malformed Git tree"@))
    } else if fields.len() != 3 {
        Err(Failure::Message("malformed Git tree entry"@))
    } else if !paths::is_safe_relative(path) {
        Err(Failure::UnsafePath(path))
    } else {
        Ok(
            Entry {
                path,
                oid: text::lossy_text(fields[2]),
                executable: fields[0] == "100755".spec_bytes(),
                regular: fields[0] == "100644".spec_bytes() || fields[0] == "100755".spec_bytes(),
                gitlink: fields[0] == "160000".spec_bytes(),
                tree: fields[0] == "040000".spec_bytes(),
            },
        )
    }
}

/// The entries of the records, or the error of the first record that has one.
pub open spec fn records_entries(records: Seq<Seq<u8>>) -> Result<Seq<Entry>, Failure>
    decreases records.len(),
{
    if records.len() == 0 {
        Ok(Seq::empty())
    } else {
        match records_entries(records.drop_last()) {
            Err(failure) => Err(failure),
            Ok(before) => match record_entry(records.last()) {
                Err(failure) => Err(failure),
                Ok(entry) => Ok(before.push(entry)),
            },
        }
    }
}

/// The records of a listing in which NUL ends each.
pub open spec fn nul_records(listing: Seq<u8>) -> Seq<Seq<u8>> {
    bytes::nonempty(bytes::split(listing, 0))
}

/// The output of a Git command; `status` is how its exit status is shown.
pub fn output(result: ProcessOutput, status: String) -> (outcome: Result<Vec<u8>, Error>)
    ensures
        outcome is Ok <==> result.succeeded(),
        outcome matches Ok(stdout) ==> stdout@ == result.stdout@,
        outcome matches Err(error) ==> error@ == Failure::Git(
            if result.complaint().len() == 0 {
                "exited with "@ + status@
            } else {
                result.complaint()
            },
        ),
{
    if !result.success() {
        let complaint = process::trimmed_text(result.stderr.as_slice());
        if complaint.as_str().is_empty() {
            let mut message = "exited with ".to_owned();
            message.append(status.as_str());
            return Err(Error::Git(message));
        }
        return Err(Error::Git(complaint));
    }
    Ok(result.stdout)
}

/// The output of a Git command as trimmed text.
pub fn text(result: ProcessOutput, status: String) -> (outcome: Result<String, Error>)
    ensures
        outcome is Ok <==> result.succeeded(),
        outcome matches Ok(shown) ==> shown@ == text::trim(text::lossy_text(result.stdout@)),
        outcome matches Err(error) ==> error@ == Failure::Git(
            if result.complaint().len() == 0 {
                "exited with "@ + status@
            } else {
                result.complaint()
            },
        ),
{
    match output(result, status) {
        Ok(stdout) => Ok(process::trimmed_text(stdout.as_slice())),
        Err(error) => Err(error),
    }
}

/// The nonempty records of a NUL-separated listing.
pub fn nul_paths(listing: &[u8]) -> (records: Vec<Vec<u8>>)
    ensures
        bytes::views(records@) == nul_records(listing@),
{
    let parts = bytes::parts(listing, 0);
    let ghost all = bytes::views(parts@);
    let mut records: Vec<Vec<u8>> = Vec::new();
    assert(all.take(0) =~= Seq::<Seq<u8>>::empty());
    assert(bytes::views(records@) =~= bytes::nonempty(all.take(0)));
    for i in 0..parts.len()
        invariant
            all == bytes::views(parts@),
            bytes::views(records@) == bytes::nonempty(all.take(i as int)),
    {
        assert(all.take(i + 1).drop_last() =~= all.take(i as int));
        assert(all.take(i + 1).last() == parts@[i as int]@);
        if parts[i].len() > 0 {
            let ghost before = bytes::views(records@);
            let record = bytes::copy(parts[i].as_slice());
            let ghost r = record@;
            records.push(record);
            assert(bytes::views(records@) =~= before.push(r));
        }
    }
    assert(all.take(all.len() as int) =~= all);
    records
}

/// A listing of paths that hold no NUL and are not empty reads back as those paths.
pub proof fn listing_round_trip(items: Seq<Seq<u8>>)
    requires
        forall|i: int| 0 <= i < items.len() ==> !(#[trigger] items[i]).contains(0),
        forall|i: int| 0 <= i < items.len() ==> (#[trigger] items[i]).len() > 0,
    ensures
        nul_records(bytes::terminate(items, 0)) == items,
{
    bytes::terminate_then_parts(items, 0u8);
}

fn parse_record(record: &[u8]) -> (result: Result<TreeEntry, Error>)
    ensures
        result is Ok <==> record_entry(record@) is Ok,
        result matches Ok(entry) ==> record_entry(record@) == Ok::<Entry, Failure>(entry@),
        result matches Err(error) ==> record_entry(record@) == Err::<Entry, Failure>(error@),
{
    let tab = bytes::position(record, 9);
    proof {
        bytes::lemma_index_of(record@, 9);
    }
    if tab == record.len() {
        return Err(error::message("malformed Git tree"));
    }
    let head = bytes::slice(record, 0, tab);
    assert(head@ =~= record@.take(tab as int));
    let fields = bytes::parts(head.as_slice(), 32);
    if fields.len() != 3 {
        return Err(error::message("malformed Git tree entry"));
    }
    let path = bytes::slice(record, tab + 1, record.len());
    assert(path@ =~= record@.skip(tab + 1));
    eligibility::validate_relative(path.as_slice())?;
    let ghost all = bytes::split(record@.take(tab as int), 32);
    assert(fields@[0]@ == all[0]);
    assert(fields@[2]@ == all[2]);
    let mode = fields[0].as_slice();
    let executable = bytes::equal(mode, "100755".as_bytes());
    Ok(
        TreeEntry {
            path,
            oid: text::lossy(fields[2].as_slice()),
            executable,
            regular: executable || bytes::equal(mode, "100644".as_bytes()),
            gitlink: bytes::equal(mode, "160000".as_bytes()),
            tree: bytes::equal(mode, "040000".as_bytes()),
        },
    )
}

/// The entries of a tree listing.
pub fn parse_tree(raw: &[u8]) -> (result: Result<Vec<TreeEntry>, Error>)
    ensures
        result is Ok <==> records_entries(nul_records(raw@)) is Ok,
        result matches Ok(list) ==> records_entries(nul_records(raw@)) == Ok::<
            Seq<Entry>,
            Failure,
        >(entries(list@)),
        result matches Err(error) ==> records_entries(nul_records(raw@)) == Err::<
            Seq<Entry>,
            Failure,
        >(error@),
{
    let records = nul_paths(raw);
    let ghost all = nul_records(raw@);
    let mut list: Vec<TreeEntry> = Vec::new();
    assert(all.take(0) =~= Seq::<Seq<u8>>::empty());
    assert(entries(list@) =~= Seq::<Entry>::empty());
    for i in 0..records.len()
        invariant
            all == nul_records(raw@),
            bytes::views(records@) == all,
            records_entries(all.take(i as int)) == Ok::<Seq<Entry>, Failure>(entries(list@)),
    {
        assert(all.take(i + 1).drop_last() =~= all.take(i as int));
        assert(all.take(i + 1).last() == records@[i as int]@);
        match parse_record(records[i].as_slice()) {
            Ok(entry) => {
                let ghost before = entries(list@);
                let ghost e = entry@;
                list.push(entry);
                assert(entries(list@) =~= before.push(e));
            },
            Err(error) => {
                proof {
                    lemma_first_error(all, i + 1);
                }
                return Err(error);
            },
        }
    }
    assert(all.take(all.len() as int) =~= all);
    Ok(list)
}

/// An error among the first records is the error of all of them.
proof fn lemma_first_error(records: Seq<Seq<u8>>, n: int)
    requires
        0 <= n <= records.len(),
        records_entries(records.take(n)) is Err,
    ensures
        records_entries(records) == records_entries(records.take(n)),
    decreases records.len(),
{
    if n < records.len() {
        assert(records.drop_last().take(n) =~= records.take(n));
        lemma_first_error(records.drop_last(), n);
    } else {
        assert(records.take(n) =~= records);
    }
}

/// Every path of a tree that was read is safe.
pub proof fn tree_paths_are_safe(records: Seq<Seq<u8>>, i: int)
    requires
        records_entries(records) is Ok,
        0 <= i < records_entries(records)->Ok_0.len(),
    ensures
        paths::is_safe_relative(records_entries(records)->Ok_0[i].path),
    decreases records.len(),
{
    if records.len() > 0 {
        let before = records_entries(records.drop_last())->Ok_0;
        if i < before.len() {
            tree_paths_are_safe(records.drop_last(), i);
        }
    }
}

/// The text that Git hashes before the content of a blob.
pub open spec fn blob_header(size: u64) -> Seq<u8> {
    vstd::utf8::encode_utf8("blob "@ + text::decimal(size as nat)).push(0)
}

/// The digest that names a blob, by the length of the name: SHA-256 for 64
/// characters and SHA-1 otherwise.
pub open spec fn blob_digest(size: u64, content: Seq<u8>, oid: Seq<char>) -> Seq<u8> {
    let data = blob_header(size) + content;
    if vstd::utf8::encode_utf8(oid).len() == 64 {
        digest::sha256(data)
    } else {
        digest::sha1(data)
    }
}

/// `oid` names the blob with this content; `size` is what its header says.
pub open spec fn is_blob(size: u64, content: Seq<u8>, oid: Seq<char>) -> bool {
    digest::hex(blob_digest(size, content, oid)) == oid
}

/// The text that Git hashes for a blob.
fn blob_data(size: u64, content: &[u8]) -> (data: Vec<u8>)
    ensures
        data@ == blob_header(size) + content@,
{
    let mut header = "blob ".to_owned();
    let length = text::decimal_text(size);
    header.append(length.as_str());
    let mut data = bytes::copy(header.as_str().as_bytes());
    data.push(0);
    bytes::append(&mut data, content);
    data
}

/// Whether a file is the blob `oid`: a regular file of the size that its
/// metadata gave, with `content` read from it.
pub fn blob_matches(is_file: bool, size: u64, content: &[u8], oid: &str) -> (yes: bool)
    ensures
        yes == (is_file && is_blob(size, content@, oid@)),
{
    if !is_file {
        return false;
    }
    let data = blob_data(size, content);
    let hash = if oid.as_bytes().len() == 64 {
        digest::sha256_digest(data.as_slice())
    } else {
        digest::sha1_digest(data.as_slice())
    };
    digest::names_digest(hash.as_slice(), oid)
}

/// The record of an entry: its mode, kind and object with spaces between, a tab
/// and its path.
pub open spec fn entry_record(
    mode: Seq<u8>,
    kind: Seq<u8>,
    object: Seq<u8>,
    path: Seq<u8>,
) -> Seq<u8> {
    mode + seq![32u8] + kind + seq![32u8] + object + seq![9u8] + path
}

proof fn lemma_split_three(mode: Seq<u8>, kind: Seq<u8>, object: Seq<u8>)
    requires
        !mode.contains(32u8),
        !kind.contains(32u8),
        !object.contains(32u8),
    ensures
        bytes::split(mode + seq![32u8] + kind + seq![32u8] + object, 32u8) == seq![
            mode,
            kind,
            object,
        ],
{
    let empty = Seq::<u8>::empty();
    bytes::lemma_split_extend(empty, mode, 32u8);
    assert(empty + mode =~= mode);
    assert(bytes::split(mode, 32u8) =~= seq![mode]);
    let one = mode + seq![32u8];
    assert(one.drop_last() =~= mode);
    assert(bytes::split(one, 32u8) =~= seq![mode, empty]);
    bytes::lemma_split_extend(one, kind, 32u8);
    assert(empty + kind =~= kind);
    assert(bytes::split(one + kind, 32u8) =~= seq![mode, kind]);
    let two = one + kind + seq![32u8];
    assert(two.drop_last() =~= one + kind);
    assert(bytes::split(two, 32u8) =~= seq![mode, kind, empty]);
    bytes::lemma_split_extend(two, object, 32u8);
    assert(empty + object =~= object);
    assert(bytes::split(two + object, 32u8) =~= seq![mode, kind, object]);
}

/// A record says what its entry is: a regular file has the mode 100644 or
/// 100755, an executable one the latter; 160000 is a submodule and 040000 a
/// tree. The object and the path are taken as they are; a path that leads out
/// is refused.
pub proof fn records_say_what_entries_are(
    mode: Seq<u8>,
    kind: Seq<u8>,
    object: Seq<u8>,
    path: Seq<u8>,
)
    requires
        !mode.contains(32u8) && !mode.contains(9u8),
        !kind.contains(32u8) && !kind.contains(9u8),
        !object.contains(32u8) && !object.contains(9u8),
    ensures
        ({
            let read = record_entry(entry_record(mode, kind, object, path));
            if paths::is_safe_relative(path) {
                read == Ok::<Entry, Failure>(
                    Entry {
                        path,
                        oid: text::lossy_text(object),
                        executable: mode == "100755".spec_bytes(),
                        regular: mode == "100644".spec_bytes() || mode == "100755".spec_bytes(),
                        gitlink: mode == "160000".spec_bytes(),
                        tree: mode == "040000".spec_bytes(),
                    },
                )
            } else {
                read == Err::<Entry, Failure>(Failure::UnsafePath(path))
            }
        }),
{
    let head = mode + seq![32u8] + kind + seq![32u8] + object;
    let record = entry_record(mode, kind, object, path);
    bytes::lemma_index_of(record, 9u8);
    let at = bytes::index_of(record, 9u8);
    assert(record[head.len() as int] == 9);
    assert forall|i: int| 0 <= i < head.len() implies head[i] != 9 by {
        if i < mode.len() {
            assert(mode.contains(mode[i]));
        } else if i > mode.len() && i < mode.len() + 1 + kind.len() {
            assert(kind.contains(kind[i - mode.len() - 1]));
        } else if i > mode.len() + 1 + kind.len() {
            assert(object.contains(object[i - mode.len() - kind.len() - 2]));
        }
    }
    if at < head.len() {
        assert(record[at] == head[at]);
    }
    assert(at == head.len());
    assert(record.take(at) =~= head);
    assert(record.skip(at + 1) =~= path);
    lemma_split_three(mode, kind, object);
}

/// A listing whose records can all be read gives one entry for each, in order;
/// otherwise it gives the error of the first that cannot.
pub proof fn every_record_gives_an_entry(records: Seq<Seq<u8>>)
    ensures
        match records_entries(records) {
            Ok(list) => {
                &&& list.len() == records.len()
                &&& forall|i: int|
                    0 <= i < records.len() ==> record_entry(#[trigger] records[i]) == Ok::<
                        Entry,
                        Failure,
                    >(list[i])
            },
            Err(failure) => exists|i: int|
                0 <= i < records.len() && record_entry(#[trigger] records[i]) == Err::<
                    Entry,
                    Failure,
                >(failure) && forall|j: int|
                    0 <= j < i ==> record_entry(#[trigger] records[j]) is Ok,
        },
    decreases records.len(),
{
    if records.len() > 0 {
        let init = records.drop_last();
        every_record_gives_an_entry(init);
        let n = records.len() - 1;
        match records_entries(init) {
            Err(failure) => {
                let i = choose|i: int|
                    0 <= i < init.len() && record_entry(#[trigger] init[i]) == Err::<
                        Entry,
                        Failure,
                    >(failure) && forall|j: int|
                        0 <= j < i ==> record_entry(#[trigger] init[j]) is Ok;
                assert(records[i] == init[i]);
                assert forall|j: int| 0 <= j < i implies record_entry(
                    #[trigger] records[j],
                ) is Ok by {
                    assert(records[j] == init[j]);
                }
            },
            Ok(before) => {
                assert forall|j: int| 0 <= j < n implies record_entry(#[trigger] records[j])
                    == Ok::<Entry, Failure>(before[j]) by {
                    assert(records[j] == init[j]);
                }
                assert(records[n] == records.last());
            },
        }
    }
}

/// What Git hashes for a blob, and by which hash: `blob `, the size in decimal
/// digits, NUL and the content; SHA-256 for names of 64 characters and SHA-1
/// for others.
pub proof fn blobs_are_named_by_their_hash(size: u64, content: Seq<u8>, oid: Seq<char>)
    ensures
        ({
            let data = vstd::utf8::encode_utf8("blob "@ + text::decimal(size as nat)) + seq![0u8]
                + content;
            &&& vstd::utf8::encode_utf8(oid).len() == 64 ==> (is_blob(size, content, oid) <==> oid
                == digest::hex(digest::sha256(data)))
            &&& vstd::utf8::encode_utf8(oid).len() != 64 ==> (is_blob(size, content, oid) <==> oid
                == digest::hex(digest::sha1(data)))
        }),
{
    let lead = vstd::utf8::encode_utf8("blob "@ + text::decimal(size as nat));
    assert(lead + seq![0u8] + content =~= lead.push(0) + content);
}

/// A record without a tab, or with other than three fields before it, cannot be
/// read.
pub proof fn records_have_three_fields(head: Seq<u8>, path: Seq<u8>)
    requires
        !head.contains(9u8),
    ensures
        record_entry(head) == Err::<Entry, Failure>(Failure::Message("malformed Git tree"@)),
        bytes::split(head, 32u8).len() != 3 ==> record_entry(head + seq![9u8] + path) == Err::<
            Entry,
            Failure,
        >(Failure::Message("malformed Git tree entry"@)),
{
    bytes::lemma_index_of(head, 9u8);
    let at = bytes::index_of(head, 9u8);
    if at < head.len() {
        assert(head.contains(head[at]));
    }
    let record = head + seq![9u8] + path;
    bytes::lemma_index_of(record, 9u8);
    let tab = bytes::index_of(record, 9u8);
    assert(record[head.len() as int] == 9);
    if tab < head.len() {
        assert(record[tab] == head[tab]);
        assert(head.contains(head[tab]));
    }
    assert(record.take(tab) =~= head);
}

/// A listing of paths that each end with NUL gives these paths.
pub proof fn listings_give_their_paths(list: Seq<Seq<u8>>)
    requires
        forall|i: int| 0 <= i < list.len() ==> !(#[trigger] list[i]).contains(0u8),
        forall|i: int| 0 <= i < list.len() ==> (#[trigger] list[i]).len() > 0,
    ensures
        nul_records(bytes::terminate(list, 0u8)) == list,
{
    bytes::terminate_then_parts(list, 0u8);
}

/// Entries are seen as they are.
pub proof fn entries_are_seen_as_they_are(list: Seq<TreeEntry>, i: int)
    requires
        0 <= i < list.len(),
    ensures
        entries(list).len() == list.len(),
        entries(list)[i].path == list[i].path@,
        entries(list)[i].oid == list[i].oid@,
        entries(list)[i].executable == list[i].executable,
        entries(list)[i].regular == list[i].regular,
        entries(list)[i].gitlink == list[i].gitlink,
        entries(list)[i].tree == list[i].tree,
{
}

} // verus!
