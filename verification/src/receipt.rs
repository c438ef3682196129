//! Receipts of finished compactions and creations, and what they say of a
//! worktree.
use crate::bytes;
use crate::clock;
use crate::error;
use crate::error::{Error, Failure};
use crate::text;
use crate::worktree::Worktree;
use vstd::prelude::*;
use vstd::string::*;
use vstd::utf8::*;

verus! {

pub const CANONICAL_NAME: &'static str = "cowtree-compaction";

pub const LEGACY_NAME: &'static str = "wt-prewarm-compaction";

pub const CREATION_NAME: &'static str = "cowtree-creation";

/// The present moment.
pub fn now() -> (result: Result<String, Error>)
    ensures
        result matches Ok(text) ==> clock::is_timestamp(text@),
        result matches Err(error) ==> error@ is Message,
{
    match clock::current_time() {
        Ok(text) => Ok(text),
        Err(error) => Err(Error::Message(error)),
    }
}

/// A finished compaction.
#[derive(Debug)]
pub struct Receipt {
    pub source_branch: String,
    pub source_commit: String,
    pub target_commit: String,
    pub excluded_hash: String,
    pub cloned_files: u64,
    pub eligible_allocated_bytes: Option<u64>,
    pub completed_at: String,
}

/// What a receipt says.
pub struct Stored {
    pub source_branch: Seq<char>,
    pub source_commit: Seq<char>,
    pub target_commit: Seq<char>,
    pub excluded_hash: Seq<char>,
    pub cloned_files: u64,
    pub eligible_allocated_bytes: Option<u64>,
    pub completed_at: Seq<char>,
}

impl View for Receipt {
    type V = Stored;

    open spec fn view(&self) -> Stored {
        Stored {
            source_branch: self.source_branch@,
            source_commit: self.source_commit@,
            target_commit: self.target_commit@,
            excluded_hash: self.excluded_hash@,
            cloned_files: self.cloned_files,
            eligible_allocated_bytes: self.eligible_allocated_bytes,
            completed_at: self.completed_at@,
        }
    }
}

/// What is known of a worktree's sharing.
#[derive(Clone, Copy, Debug, PartialEq, Eq, Structural)]
pub enum ReceiptState {
    Compacted,
    Created,
    Stale,
    NotCompacted,
    Invalid,
    Unknown,
}

/// A receipt and whether it stood under its old name.
#[derive(Debug)]
pub struct LocatedReceipt {
    pub receipt: Receipt,
    pub legacy: bool,
}

/// A key and the value that follows the first `=`.
pub open spec fn line_field(line: Seq<char>) -> Option<(Seq<char>, Seq<char>)> {
    let at = bytes::index_of(line, '=');
    if at == line.len() {
        None
    } else {
        Some((line.take(at), line.skip(at + 1)))
    }
}

/// The value of a key among fields of different keys.
pub open spec fn value_of(fields: Seq<(Seq<char>, Seq<char>)>, key: Seq<char>) -> Option<Seq<char>>
    decreases fields.len(),
{
    if fields.len() == 0 {
        None
    } else if fields.last().0 == key {
        Some(fields.last().1)
    } else {
        value_of(fields.drop_last(), key)
    }
}

/// The fields of the lines that are not empty, or the error of the first line
/// that is no field or repeats a key.
pub open spec fn read_lines(lines: Seq<Seq<char>>) -> Result<
    Seq<(Seq<char>, Seq<char>)>,
    Failure,
>
    decreases lines.len(),
{
    if lines.len() == 0 {
        Ok(Seq::empty())
    } else {
        match read_lines(lines.drop_last()) {
            Err(failure) => Err(failure),
            Ok(before) => if lines.last().len() == 0 {
                Ok(before)
            } else {
                match line_field(lines.last()) {
                    None => Err(Failure::Message("malformed receipt line"@)),
                    Some((key, value)) => if value_of(before, key) is Some {
                        Err(Failure::Message("duplicate receipt field: "@ + key))
                    } else {
                        Ok(before.push((key, value)))
                    },
                }
            },
        }
    }
}

/// The value of a key that has to be there and not be empty.
pub open spec fn required(fields: Seq<(Seq<char>, Seq<char>)>, key: Seq<char>) -> Result<
    Seq<char>,
    Failure,
> {
    match value_of(fields, key) {
        Some(value) => if value.len() > 0 {
            Ok(value)
        } else {
            Err(Failure::Message("receipt is missing "@ + key))
        },
        None => Err(Failure::Message("receipt is missing "@ + key)),
    }
}

/// The receipt that the fields make, or the first thing wrong with them.
pub open spec fn receipt_of(fields: Seq<(Seq<char>, Seq<char>)>) -> Result<Stored, Failure> {
    let branch = required(fields, "source_branch"@);
    let source = required(fields, "source_commit"@);
    let target = required(fields, "target_commit"@);
    let hash = required(fields, "excluded_hash"@);
    let count = required(fields, "cloned_files"@);
    let allocated = value_of(fields, "eligible_allocated_bytes"@);
    let completed = required(fields, "completed_at"@);
    if value_of(fields, "version"@) != Some("1"@) {
        Err(Failure::Message("unsupported receipt version"@))
    } else if branch is Err {
        Err(branch->Err_0)
    } else if source is Err {
        Err(source->Err_0)
    } else if target is Err {
        Err(target->Err_0)
    } else if hash is Err {
        Err(hash->Err_0)
    } else if count is Err {
        Err(count->Err_0)
    } else if text::parsed_u64(count->Ok_0) is None {
        Err(Failure::Message("invalid cloned_files"@))
    } else if allocated is Some && text::parsed_u64(allocated->0) is None {
        Err(Failure::Message("invalid eligible_allocated_bytes"@))
    } else if completed is Err {
        Err(completed->Err_0)
    } else {
        Ok(
            Stored {
                source_branch: branch->Ok_0,
                source_commit: source->Ok_0,
                target_commit: target->Ok_0,
                excluded_hash: hash->Ok_0,
                cloned_files: text::parsed_u64(count->Ok_0)->0,
                eligible_allocated_bytes: match allocated {
                    Some(value) => text::parsed_u64(value),
                    None => None,
                },
                completed_at: completed->Ok_0,
            },
        )
    }
}

/// What a receipt file says.
pub open spec fn stored(content: Seq<u8>) -> Result<Stored, Failure> {
    if !valid_utf8(content) {
        Err(Failure::Message("receipt is not UTF-8"@))
    } else {
        match read_lines(text::lines(decode_utf8(content))) {
            Err(failure) => Err(failure),
            Ok(fields) => receipt_of(fields),
        }
    }
}

/// What a list of fields holds.
pub open spec fn pairs(fields: Seq<(Vec<char>, Vec<char>)>) -> Seq<(Seq<char>, Seq<char>)> {
    Seq::new(fields.len(), |i: int| (fields[i].0@, fields[i].1@))
}

/// The position of the field with a key.
fn field_position(fields: &Vec<(Vec<char>, Vec<char>)>, key: &Vec<char>) -> (found: Option<usize>)
    ensures
        found is Some <==> value_of(pairs(fields@), key@) is Some,
        found matches Some(i) ==> i < fields@.len() && value_of(pairs(fields@), key@) == Some(
            fields@[i as int].1@,
        ),
{
    let ghost all = pairs(fields@);
    let mut found: Option<usize> = None;
    assert(all.take(0) =~= Seq::<(Seq<char>, Seq<char>)>::empty());
    for i in 0..fields.len()
        invariant
            all == pairs(fields@),
            found is Some <==> value_of(all.take(i as int), key@) is Some,
            found matches Some(j) ==> j < fields@.len() && value_of(all.take(i as int), key@)
                == Some(fields@[j as int].1@),
    {
        assert(all.take(i + 1).drop_last() =~= all.take(i as int));
        assert(all.take(i + 1).last() == (fields@[i as int].0@, fields@[i as int].1@));
        if same_chars(&fields[i].0, key) {
            found = Some(i);
        }
    }
    assert(all.take(all.len() as int) =~= all);
    found
}

fn same_chars(a: &Vec<char>, b: &Vec<char>) -> (same: bool)
    ensures
        same == (a@ == b@),
{
    if a.len() != b.len() {
        return false;
    }
    for i in 0..a.len()
        invariant
            a@.len() == b@.len(),
            forall|j: int| 0 <= j < i ==> a@[j] == b@[j],
    {
        if a[i] != b[i] {
            return false;
        }
    }
    assert(a@ =~= b@);
    true
}

/// The position of the first `c`, or the length.
fn char_position(chars: &Vec<char>, c: char) -> (at: usize)
    ensures
        at as int == bytes::index_of(chars@, c),
        at <= chars@.len(),
{
    let mut at: usize = 0;
    assert(chars@.take(0) =~= Seq::<char>::empty());
    for i in 0..chars.len()
        invariant
            at as int == bytes::index_of(chars@.take(i as int), c),
            at <= i,
    {
        assert(chars@.take(i + 1).drop_last() =~= chars@.take(i as int));
        if at == i && chars[i] != c {
            at = i + 1;
        }
    }
    assert(chars@.take(chars@.len() as int) =~= chars@);
    at
}

/// An error among the first lines is the error of all of them.
proof fn lemma_first_line_error(lines: Seq<Seq<char>>, n: int)
    requires
        0 <= n <= lines.len(),
        read_lines(lines.take(n)) is Err,
    ensures
        read_lines(lines) == read_lines(lines.take(n)),
    decreases lines.len(),
{
    if n < lines.len() {
        assert(lines.drop_last().take(n) =~= lines.take(n));
        lemma_first_line_error(lines.drop_last(), n);
    } else {
        assert(lines.take(n) =~= lines);
    }
}

/// The fields of a receipt's text.
fn read_fields(content: &str) -> (result: Result<Vec<(Vec<char>, Vec<char>)>, Error>)
    ensures
        ({
            let fields = read_lines(text::lines(content@));
            &&& result is Ok <==> fields is Ok
            &&& result matches Ok(list) ==> fields == Ok::<Seq<(Seq<char>, Seq<char>)>, Failure>(
                pairs(list@),
            )
            &&& result matches Err(error) ==> fields == Err::<
                Seq<(Seq<char>, Seq<char>)>,
                Failure,
            >(error@)
        }),
{
    let chars = text::characters(content);
    let lines = text::line_list(&chars);
    let ghost all = text::lines(content@);
    let mut fields: Vec<(Vec<char>, Vec<char>)> = Vec::new();
    assert(all.take(0) =~= Seq::<Seq<char>>::empty());
    assert(pairs(fields@) =~= Seq::<(Seq<char>, Seq<char>)>::empty());
    for i in 0..lines.len()
        invariant
            all == text::lines(content@),
            all == text::views(lines@),
            read_lines(all.take(i as int)) == Ok::<Seq<(Seq<char>, Seq<char>)>, Failure>(
                pairs(fields@),
            ),
    {
        assert(all.take(i + 1).drop_last() =~= all.take(i as int));
        assert(all.take(i + 1).last() == lines@[i as int]@);
        let line = &lines[i];
        if line.len() > 0 {
            let at = char_position(line, '=');
            if at == line.len() {
                proof {
                    lemma_first_line_error(all, i + 1);
                }
                return Err(error::message("malformed receipt line"));
            }
            let key = text::slice(line, 0, at);
            assert(key@ =~= line@.take(at as int));
            let value = text::slice(line, at + 1, line.len());
            assert(value@ =~= line@.skip(at + 1));
            if field_position(&fields, &key).is_some() {
                proof {
                    lemma_first_line_error(all, i + 1);
                }
                let mut message = "duplicate receipt field: ".to_owned();
                let shown = text::text_of(&key, 0, key.len());
                assert(shown@ =~= key@);
                message.append(shown.as_str());
                return Err(Error::Message(message));
            }
            let ghost before = pairs(fields@);
            let ghost field = (key@, value@);
            fields.push((key, value));
            assert(pairs(fields@) =~= before.push(field));
        }
    }
    assert(all.take(all.len() as int) =~= all);
    Ok(fields)
}

fn required_field(fields: &Vec<(Vec<char>, Vec<char>)>, key: &str) -> (result: Result<
    String,
    Error,
>)
    ensures
        result is Ok <==> required(pairs(fields@), key@) is Ok,
        result matches Ok(value) ==> required(pairs(fields@), key@) == Ok::<Seq<char>, Failure>(
            value@,
        ),
        result matches Err(error) ==> required(pairs(fields@), key@) == Err::<Seq<char>, Failure>(
            error@,
        ),
{
    let name = text::characters(key);
    if let Some(i) = field_position(fields, &name) {
        let value = &fields[i].1;
        if value.len() > 0 {
            let shown = text::text_of(value, 0, value.len());
            assert(shown@ =~= value@);
            return Ok(shown);
        }
    }
    let mut message = "receipt is missing ".to_owned();
    message.append(key);
    Err(Error::Message(message))
}

fn receipt_from(fields: &Vec<(Vec<char>, Vec<char>)>) -> (result: Result<Receipt, Error>)
    ensures
        result is Ok <==> receipt_of(pairs(fields@)) is Ok,
        result matches Ok(receipt) ==> receipt_of(pairs(fields@)) == Ok::<Stored, Failure>(
            receipt@,
        ),
        result matches Err(error) ==> receipt_of(pairs(fields@)) == Err::<Stored, Failure>(error@),
{
    let version = text::characters("version");
    let supported = match field_position(fields, &version) {
        Some(i) => text::equal(&fields[i].1, "1"),
        None => false,
    };
    if !supported {
        return Err(error::message("unsupported receipt version"));
    }
    let source_branch = required_field(fields, "source_branch")?;
    let source_commit = required_field(fields, "source_commit")?;
    let target_commit = required_field(fields, "target_commit")?;
    let excluded_hash = required_field(fields, "excluded_hash")?;
    let count = required_field(fields, "cloned_files")?;
    let digits = text::characters(count.as_str());
    let cloned_files = match text::number(&digits) {
        Some(value) => value,
        None => {
            return Err(error::message("invalid cloned_files"));
        },
    };
    let allocated = text::characters("eligible_allocated_bytes");
    let eligible_allocated_bytes = match field_position(fields, &allocated) {
        Some(i) => match text::number(&fields[i].1) {
            Some(value) => Some(value),
            None => {
                return Err(error::message("invalid eligible_allocated_bytes"));
            },
        },
        None => None,
    };
    let completed_at = required_field(fields, "completed_at")?;
    Ok(
        Receipt {
            source_branch,
            source_commit,
            target_commit,
            excluded_hash,
            cloned_files,
            eligible_allocated_bytes,
            completed_at,
        },
    )
}

/// Reads a receipt file.
pub fn parse(content: &[u8]) -> (result: Result<Receipt, Error>)
    ensures
        result is Ok <==> stored(content@) is Ok,
        result matches Ok(receipt) ==> stored(content@) == Ok::<Stored, Failure>(receipt@),
        result matches Err(error) ==> stored(content@) == Err::<Stored, Failure>(error@),
{
    match text::utf8(content) {
        None => Err(error::message("receipt is not UTF-8")),
        Some(text) => {
            let fields = read_fields(text)?;
            receipt_from(&fields)
        },
    }
}

/// A key and its value as a line holds them.
pub open spec fn field_line(key: Seq<char>, value: Seq<char>) -> Seq<char> {
    key.push('=') + value
}

/// The lines of a receipt file.
pub open spec fn receipt_lines(receipt: Stored) -> Seq<Seq<char>> {
    let start = seq![
        field_line("version"@, "1"@),
        field_line("source_branch"@, receipt.source_branch),
        field_line("source_commit"@, receipt.source_commit),
        field_line("target_commit"@, receipt.target_commit),
        field_line("excluded_hash"@, receipt.excluded_hash),
        field_line("cloned_files"@, text::decimal(receipt.cloned_files as nat)),
    ];
    let middle = match receipt.eligible_allocated_bytes {
        Some(count) => start.push(
            field_line("eligible_allocated_bytes"@, text::decimal(count as nat)),
        ),
        None => start,
    };
    middle.push(field_line("completed_at"@, receipt.completed_at))
}

fn append_field(body: &mut String, key: &str, value: &str)
    ensures
        final(body)@ == (old(body)@ + field_line(key@, value@)).push('\n'),
{
    body.append(key);
    body.push('=');
    body.append(value);
    body.push('\n');
    assert(body@ =~= (old(body)@ + field_line(key@, value@)).push('\n'));
}

proof fn lemma_next_line(lines: Seq<Seq<char>>, k: int)
    requires
        0 <= k < lines.len(),
    ensures
        bytes::terminate(lines.take(k + 1), '\n') == (bytes::terminate(lines.take(k), '\n')
            + lines[k]).push('\n'),
{
    assert(lines.take(k + 1).drop_last() =~= lines.take(k));
}

/// The text of a receipt file: its lines, each ended by a line feed.
pub fn body(receipt: &Receipt) -> (result: String)
    ensures
        result@ == bytes::terminate(receipt_lines(receipt@), '\n'),
{
    let ghost all = receipt_lines(receipt@);
    let count = text::decimal_text(receipt.cloned_files);
    let mut result = String::new();
    assert(result@ =~= bytes::terminate(all.take(0), '\n'));
    append_field(&mut result, "version", "1");
    proof {
        lemma_next_line(all, 0);
    }
    append_field(&mut result, "source_branch", receipt.source_branch.as_str());
    proof {
        lemma_next_line(all, 1);
    }
    append_field(&mut result, "source_commit", receipt.source_commit.as_str());
    proof {
        lemma_next_line(all, 2);
    }
    append_field(&mut result, "target_commit", receipt.target_commit.as_str());
    proof {
        lemma_next_line(all, 3);
    }
    append_field(&mut result, "excluded_hash", receipt.excluded_hash.as_str());
    proof {
        lemma_next_line(all, 4);
    }
    append_field(&mut result, "cloned_files", count.as_str());
    proof {
        lemma_next_line(all, 5);
    }
    if let Some(allocated) = receipt.eligible_allocated_bytes {
        let shown = text::decimal_text(allocated);
        append_field(&mut result, "eligible_allocated_bytes", shown.as_str());
        proof {
            lemma_next_line(all, 6);
        }
    }
    append_field(&mut result, "completed_at", receipt.completed_at.as_str());
    proof {
        lemma_next_line(all, all.len() - 1);
        assert(all.take(all.len() as int) =~= all);
    }
    result
}

/// A value that a line can hold: neither empty nor with a line feed in it or a
/// carriage return at its end.
pub open spec fn holds(value: Seq<char>) -> bool {
    value.len() > 0 && !value.contains('\n') && value.last() != '\r'
}

proof fn lemma_field(key: Seq<char>, value: Seq<char>)
    requires
        !key.contains('='),
        !key.contains('\n'),
        holds(value),
    ensures
        line_field(field_line(key, value)) == Some((key, value)),
        field_line(key, value).len() > 0,
        !field_line(key, value).contains('\n'),
        text::without_return(field_line(key, value)) == field_line(key, value),
{
    let line = field_line(key, value);
    bytes::lemma_index_of(line, '=');
    let at = bytes::index_of(line, '=');
    assert(line[key.len() as int] == '=');
    if at < key.len() {
        assert(key.contains(key[at]));
    }
    assert(line.take(at) =~= key);
    assert(line.skip(at + 1) =~= value);
    assert forall|i: int| 0 <= i < line.len() implies line[i] != '\n' by {
        if i < key.len() {
            assert(key.contains(key[i]));
        } else if i > key.len() {
            assert(value.contains(value[i - key.len() - 1]));
        }
    }
    assert(line.last() == value.last());
}

/// The lines of a text made of lines.
proof fn lemma_lines(lines: Seq<Seq<char>>)
    requires
        forall|i: int|
            0 <= i < lines.len() ==> !(#[trigger] lines[i]).contains('\n') && text::without_return(
                lines[i],
            ) == lines[i],
    ensures
        text::lines(bytes::terminate(lines, '\n')) == lines,
{
    assert forall|i: int| 0 <= i < lines.len() implies !(#[trigger] lines[i]).contains('\n') by {}
    bytes::terminate_then_split(lines, '\n');
    assert(text::lines(bytes::terminate(lines, '\n')) =~= lines);
}

/// Reading one more line with a key that is not there yet.
proof fn lemma_read_line(
    lines: Seq<Seq<char>>,
    k: int,
    fields: Seq<(Seq<char>, Seq<char>)>,
    key: Seq<char>,
    value: Seq<char>,
)
    requires
        0 <= k < lines.len(),
        read_lines(lines.take(k)) == Ok::<Seq<(Seq<char>, Seq<char>)>, Failure>(fields),
        lines[k].len() > 0,
        line_field(lines[k]) == Some((key, value)),
        value_of(fields, key) is None,
    ensures
        read_lines(lines.take(k + 1)) == Ok::<Seq<(Seq<char>, Seq<char>)>, Failure>(
            fields.push((key, value)),
        ),
{
    assert(lines.take(k + 1).drop_last() =~= lines.take(k));
}

/// A receipt that can be written: every text of it can stand in a line.
pub open spec fn writable(receipt: Stored) -> bool {
    &&& holds(receipt.source_branch)
    &&& holds(receipt.source_commit)
    &&& holds(receipt.target_commit)
    &&& holds(receipt.excluded_hash)
    &&& holds(receipt.completed_at)
}

/// The keys of a receipt, by the position of their lines.
pub open spec fn receipt_keys(receipt: Stored) -> Seq<Seq<char>> {
    let start = seq![
        "version"@,
        "source_branch"@,
        "source_commit"@,
        "target_commit"@,
        "excluded_hash"@,
        "cloned_files"@,
    ];
    if receipt.eligible_allocated_bytes is Some {
        start.push("eligible_allocated_bytes"@).push("completed_at"@)
    } else {
        start.push("completed_at"@)
    }
}

pub open spec fn receipt_values(receipt: Stored) -> Seq<Seq<char>> {
    let start = seq![
        "1"@,
        receipt.source_branch,
        receipt.source_commit,
        receipt.target_commit,
        receipt.excluded_hash,
        text::decimal(receipt.cloned_files as nat),
    ];
    match receipt.eligible_allocated_bytes {
        Some(count) => start.push(text::decimal(count as nat)).push(receipt.completed_at),
        None => start.push(receipt.completed_at),
    }
}

proof fn lemma_digits_hold(n: u64)
    ensures
        holds(text::decimal(n as nat)),
{
    text::lemma_decimal(n as nat);
    let s = text::decimal(n as nat);
    assert forall|i: int| 0 <= i < s.len() implies s[i] != '\n' by {
        assert(text::is_digit(s[i]));
    }
    assert(text::is_digit(s[s.len() - 1]));
}

/// The keys differ from one another and can stand before `=`.
#[verifier::spinoff_prover]
proof fn lemma_keys(receipt: Stored)
    ensures
        ({
            let keys = receipt_keys(receipt);
            &&& forall|i: int, j: int|
                0 <= i < j < keys.len() ==> #[trigger] keys[i] != #[trigger] keys[j]
            &&& forall|i: int|
                0 <= i < keys.len() ==> !(#[trigger] keys[i]).contains('=') && !keys[i].contains(
                    '\n',
                )
        }),
        holds("1"@),
{
    reveal_strlit("1");
    reveal_strlit("version");
    reveal_strlit("source_branch");
    reveal_strlit("source_commit");
    reveal_strlit("target_commit");
    reveal_strlit("excluded_hash");
    reveal_strlit("cloned_files");
    reveal_strlit("eligible_allocated_bytes");
    reveal_strlit("completed_at");
    // Keys of one length differ in the character at this position.
    assert("source_branch"@[7] == 'b' && "source_commit"@[7] == 'c');
    assert("source_branch"@[0] == 's' && "source_commit"@[0] == 's');
    assert("target_commit"@[0] == 't' && "excluded_hash"@[0] == 'e');
    assert("cloned_files"@[1] == 'l' && "completed_at"@[1] == 'o');
    assert("version"@.len() == 7);
    assert("eligible_allocated_bytes"@.len() == 24);
}

/// The fields of the first `k` lines.
pub open spec fn receipt_fields(receipt: Stored, k: int) -> Seq<(Seq<char>, Seq<char>)> {
    Seq::new(k as nat, |i: int| (receipt_keys(receipt)[i], receipt_values(receipt)[i]))
}

/// Looking up a key among the first `k` fields.
proof fn lemma_lookup(receipt: Stored, k: int, key: Seq<char>)
    requires
        0 <= k <= receipt_keys(receipt).len(),
    ensures
        forall|i: int|
            0 <= i < k && #[trigger] receipt_keys(receipt)[i] == key ==> value_of(
                receipt_fields(receipt, k),
                key,
            ) == Some(receipt_values(receipt)[i]),
        (forall|i: int| 0 <= i < k ==> #[trigger] receipt_keys(receipt)[i] != key) ==> value_of(
            receipt_fields(receipt, k),
            key,
        ) is None,
    decreases k,
{
    lemma_keys(receipt);
    if k > 0 {
        lemma_lookup(receipt, k - 1, key);
        assert(receipt_fields(receipt, k).drop_last() =~= receipt_fields(receipt, k - 1));
    }
}

proof fn lemma_read_receipt(receipt: Stored, k: int)
    requires
        writable(receipt),
        0 <= k <= receipt_lines(receipt).len(),
    ensures
        receipt_lines(receipt).len() == receipt_keys(receipt).len(),
        receipt_values(receipt).len() == receipt_keys(receipt).len(),
        forall|i: int|
            0 <= i < receipt_lines(receipt).len() ==> (#[trigger] receipt_lines(receipt)[i])
                == field_line(receipt_keys(receipt)[i], receipt_values(receipt)[i]),
        forall|i: int| 0 <= i < receipt_values(receipt).len() ==> holds(#[trigger] receipt_values(receipt)[i]),
        read_lines(receipt_lines(receipt).take(k)) == Ok::<Seq<(Seq<char>, Seq<char>)>, Failure>(
            receipt_fields(receipt, k),
        ),
    decreases k,
{
    let lines = receipt_lines(receipt);
    let keys = receipt_keys(receipt);
    let values = receipt_values(receipt);
    lemma_keys(receipt);
    lemma_digits_hold(receipt.cloned_files);
    if receipt.eligible_allocated_bytes is Some {
        lemma_digits_hold(receipt.eligible_allocated_bytes->0);
    }
    if k == 0 {
        assert(lines.take(0) =~= Seq::<Seq<char>>::empty());
        assert(receipt_fields(receipt, 0) =~= Seq::<(Seq<char>, Seq<char>)>::empty());
    } else {
        lemma_read_receipt(receipt, k - 1);
        lemma_field(keys[k - 1], values[k - 1]);
        lemma_lookup(receipt, k - 1, keys[k - 1]);
        lemma_read_line(lines, k - 1, receipt_fields(receipt, k - 1), keys[k - 1], values[k - 1]);
        assert(receipt_fields(receipt, k) =~= receipt_fields(receipt, k - 1).push(
            (keys[k - 1], values[k - 1]),
        ));
    }
}

/// Reading the file of a receipt gives the receipt back.
pub proof fn receipt_round_trip(receipt: Stored)
    requires
        writable(receipt),
    ensures
        stored(encode_utf8(bytes::terminate(receipt_lines(receipt), '\n'))) == Ok::<
            Stored,
            Failure,
        >(receipt),
{
    let lines = receipt_lines(receipt);
    let keys = receipt_keys(receipt);
    let values = receipt_values(receipt);
    let n = keys.len() as int;
    let body = bytes::terminate(lines, '\n');
    encode_utf8_valid_utf8(body);
    encode_utf8_decode_utf8(body);
    lemma_read_receipt(receipt, lines.len() as int);
    lemma_keys(receipt);
    assert forall|i: int| 0 <= i < lines.len() implies !(#[trigger] lines[i]).contains('\n')
        && text::without_return(lines[i]) == lines[i] by {
        lemma_field(keys[i], values[i]);
    }
    lemma_lines(lines);
    assert(lines.take(lines.len() as int) =~= lines);
    let fields = receipt_fields(receipt, n);
    lemma_lookup(receipt, n, keys[0]);
    lemma_lookup(receipt, n, keys[1]);
    lemma_lookup(receipt, n, keys[2]);
    lemma_lookup(receipt, n, keys[3]);
    lemma_lookup(receipt, n, keys[4]);
    lemma_lookup(receipt, n, keys[5]);
    lemma_lookup(receipt, n, keys[n - 1]);
    lemma_lookup(receipt, n, "eligible_allocated_bytes"@);
    text::decimal_round_trip(receipt.cloned_files);
    text::lemma_decimal(receipt.cloned_files as nat);
    if receipt.eligible_allocated_bytes is Some {
        text::decimal_round_trip(receipt.eligible_allocated_bytes->0);
        assert(keys[6] == "eligible_allocated_bytes"@);
    } else {
        lemma_allocated_is_no_other_key(receipt);
    }
    assert(receipt_of(fields) == Ok::<Stored, Failure>(receipt));
}

/// No line of a text holds a line feed.
proof fn lemma_no_line_feed(text: Seq<char>)
    ensures
        forall|i: int|
            0 <= i < text::lines(text).len() ==> !(#[trigger] text::lines(text)[i]).contains('\n'),
{
    let parts = bytes::split(text, '\n');
    bytes::split_then_join(text, '\n');
    bytes::lemma_split_len(text, '\n');
    let all = text::lines(text);
    assert forall|i: int| 0 <= i < all.len() implies !(#[trigger] all[i]).contains('\n') by {
        let part = parts[i];
        assert(!part.contains('\n'));
        if all[i].contains('\n') {
            let k = choose|k: int| 0 <= k < all[i].len() && all[i][k] == '\n';
            assert(part[k] == '\n');
        }
    }
}

/// No value that was read holds a line feed.
proof fn lemma_values_without_line_feed(lines: Seq<Seq<char>>, key: Seq<char>)
    requires
        forall|i: int| 0 <= i < lines.len() ==> !(#[trigger] lines[i]).contains('\n'),
        read_lines(lines) is Ok,
    ensures
        value_of(read_lines(lines)->Ok_0, key) matches Some(value) ==> !value.contains('\n'),
    decreases lines.len(),
{
    if lines.len() > 0 {
        let init = lines.drop_last();
        assert forall|i: int| 0 <= i < init.len() implies !(#[trigger] init[i]).contains('\n') by {
            assert(init[i] == lines[i]);
        }
        lemma_values_without_line_feed(init, key);
        let line = lines[lines.len() - 1];
        let before = read_lines(init)->Ok_0;
        if line.len() > 0 {
            let (name, value) = line_field(line)->0;
            let fields = read_lines(lines)->Ok_0;
            assert(fields.drop_last() =~= before);
            bytes::lemma_index_of(line, '=');
            let at = bytes::index_of(line, '=');
            if value.contains('\n') {
                let k = choose|k: int| 0 <= k < value.len() && value[k] == '\n';
                assert(line[at + 1 + k] == '\n');
            }
        }
    }
}

/// No text of a receipt ends in a carriage return.
pub open spec fn ends_plainly(receipt: Stored) -> bool {
    &&& receipt.source_branch.last() != '\r'
    &&& receipt.source_commit.last() != '\r'
    &&& receipt.target_commit.last() != '\r'
    &&& receipt.excluded_hash.last() != '\r'
    &&& receipt.completed_at.last() != '\r'
}

/// A receipt that was read can be written, unless a text of it ends in a
/// carriage return.
pub proof fn read_receipt_is_writable(content: Seq<u8>)
    requires
        stored(content) is Ok,
        ends_plainly(stored(content)->Ok_0),
    ensures
        writable(stored(content)->Ok_0),
{
    let lines = text::lines(decode_utf8(content));
    lemma_no_line_feed(decode_utf8(content));
    lemma_values_without_line_feed(lines, "source_branch"@);
    lemma_values_without_line_feed(lines, "source_commit"@);
    lemma_values_without_line_feed(lines, "target_commit"@);
    lemma_values_without_line_feed(lines, "excluded_hash"@);
    lemma_values_without_line_feed(lines, "completed_at"@);
}

/// A receipt that was read and is written anew says what it said before, unless
/// a text of it ends in a carriage return.
pub proof fn upgrade_keeps_the_receipt(content: Seq<u8>)
    requires
        stored(content) is Ok,
        ends_plainly(stored(content)->Ok_0),
    ensures
        stored(
            encode_utf8(bytes::terminate(receipt_lines(stored(content)->Ok_0), '\n')),
        ) == stored(content),
{
    read_receipt_is_writable(content);
    receipt_round_trip(stored(content)->Ok_0);
}

#[verifier::spinoff_prover]
proof fn lemma_allocated_is_no_other_key(receipt: Stored)
    requires
        receipt.eligible_allocated_bytes is None,
    ensures
        forall|i: int|
            0 <= i < receipt_keys(receipt).len() ==> #[trigger] receipt_keys(receipt)[i]
                != "eligible_allocated_bytes"@,
{
    let with = Stored { eligible_allocated_bytes: Some(0), ..receipt };
    lemma_keys(with);
    let keys = receipt_keys(receipt);
    let more = receipt_keys(with);
    assert(more[6] == "eligible_allocated_bytes"@);
    assert forall|i: int| 0 <= i < keys.len() implies #[trigger] keys[i]
        != "eligible_allocated_bytes"@ by {
        if i < 6 {
            assert(keys[i] == more[i]);
        } else {
            assert(keys[6] == more[7]);
        }
    }
}

/// What is known from a compaction receipt, for the commits that are current.
pub open spec fn receipt_state(
    located: Option<Result<Stored, Failure>>,
    source_commit: Seq<char>,
    target_commit: Seq<char>,
) -> ReceiptState {
    match located {
        None => ReceiptState::NotCompacted,
        Some(Err(_)) => ReceiptState::Invalid,
        Some(Ok(receipt)) => if receipt.source_commit == source_commit && receipt.target_commit
            == target_commit {
            ReceiptState::Compacted
        } else {
            ReceiptState::Stale
        },
    }
}

/// What a receipt that was looked for says.
pub open spec fn located_view(located: Option<&Result<LocatedReceipt, Error>>) -> Option<
    Result<Stored, Failure>,
> {
    match located {
        None => None,
        Some(Ok(found)) => Some(Ok(found.receipt@)),
        Some(Err(error)) => Some(Err(error@)),
    }
}

/// What is known of a worktree, for the source and target commits that are current.
pub fn state(
    located: Option<&Result<LocatedReceipt, Error>>,
    source_commit: &str,
    target_commit: &str,
) -> (result: ReceiptState)
    ensures
        result == receipt_state(located_view(located), source_commit@, target_commit@),
{
    match located {
        None => ReceiptState::NotCompacted,
        Some(Err(_)) => ReceiptState::Invalid,
        Some(Ok(found)) => {
            if text::same(found.receipt.source_commit.as_str(), source_commit) && text::same(
                found.receipt.target_commit.as_str(),
                target_commit,
            ) {
                ReceiptState::Compacted
            } else {
                ReceiptState::Stale
            }
        },
    }
}

/// The name that stands for the source branch when clones came from several
/// worktrees. Such a receipt is bound to its target alone.
pub open spec fn several_sources() -> Seq<char> {
    "multi"@
}

/// What is known of a worktree whose head is `head`. `tip` is the commit of the
/// receipt's source branch, where it can be resolved.
pub open spec fn target_state(
    located: Option<Result<Stored, Failure>>,
    head: Seq<char>,
    tip: Option<Seq<char>>,
) -> ReceiptState {
    match located {
        Some(Ok(receipt)) => if receipt.source_branch == several_sources() {
            receipt_state(located, receipt.source_commit, head)
        } else {
            match tip {
                Some(tip) => receipt_state(located, tip, head),
                None => ReceiptState::Stale,
            }
        },
        _ => receipt_state(located, Seq::empty(), head),
    }
}

/// What is known of a worktree from its compaction receipt. `tip` is the commit
/// of the receipt's source branch, where it can be resolved.
pub fn state_for_target(
    located: Option<&Result<LocatedReceipt, Error>>,
    target: &Worktree,
    tip: &Option<String>,
) -> (result: ReceiptState)
    ensures
        result == target_state(located_view(located), target.head@, text::optional(*tip)),
{
    if let Some(Ok(found)) = located {
        if text::same(found.receipt.source_branch.as_str(), "multi") {
            return state(
                located,
                found.receipt.source_commit.as_str(),
                target.head.as_str(),
            );
        }
        return match tip {
            Some(tip) => state(located, tip.as_str(), target.head.as_str()),
            None => ReceiptState::Stale,
        };
    }
    state(located, "", target.head.as_str())
}

/// A receipt just written for the current commits reads as compacted, and as
/// stale once the head moves.
pub proof fn written_receipt_is_current(receipt: Stored, head: Seq<char>, tip: Option<Seq<char>>)
    requires
        writable(receipt),
        receipt.source_branch == several_sources() || tip == Some(receipt.source_commit),
    ensures
        ({
            let content = encode_utf8(bytes::terminate(receipt_lines(receipt), '\n'));
            target_state(Some(stored(content)), head, tip) == (if receipt.target_commit == head {
                ReceiptState::Compacted
            } else {
                ReceiptState::Stale
            })
        }),
{
    receipt_round_trip(receipt);
}

/// A receipt that is malformed or of an unsupported version makes the state
/// invalid, whatever the commits.
pub proof fn malformed_receipt_is_invalid(
    content: Seq<u8>,
    head: Seq<char>,
    tip: Option<Seq<char>>,
)
    requires
        stored(content) is Err,
    ensures
        target_state(Some(stored(content)), head, tip) == ReceiptState::Invalid,
{
}

/// The administration directory that Git named.
pub fn admin_dir(answer: Result<String, Error>) -> (result: Result<Vec<u8>, Error>)
    ensures
        result is Ok <==> answer is Ok,
        result matches Ok(path) ==> path@ == encode_utf8(answer->Ok_0@),
        result matches Err(error) ==> error@ == answer->Err_0@,
{
    match answer {
        Ok(text) => Ok(bytes::copy(text.as_str().as_bytes())),
        Err(error) => Err(error),
    }
}

/// What is known of the receipt of a worktree: the file under the present name
/// counts, and one under the old name where there is no such file. That the
/// administration directory is not known or the file cannot be read is an error;
/// that its content is malformed is something known of the receipt.
pub open spec fn located_receipt(
    refused: Option<Error>,
    canonical: Option<Result<Vec<u8>, String>>,
    legacy: Option<Result<Vec<u8>, String>>,
) -> Result<Option<Result<Stored, Failure>>, Failure> {
    let file = if canonical is Some {
        canonical
    } else {
        legacy
    };
    if refused is Some {
        Err(refused->0@)
    } else {
        match file {
            None => Ok(None),
            Some(Err(error)) => Err(Failure::Io(error@)),
            Some(Ok(content)) => Ok(Some(stored(content@))),
        }
    }
}

/// The receipt of a worktree. `refused` is the error where its administration
/// directory is not known; `canonical` and `legacy` are what was found there.
pub fn read_for(
    refused: Option<Error>,
    canonical: Option<Result<Vec<u8>, String>>,
    legacy: Option<Result<Vec<u8>, String>>,
) -> (result: Result<Option<Result<LocatedReceipt, Error>>, Error>)
    ensures
        ({
            let known = located_receipt(refused, canonical, legacy);
            &&& result is Ok <==> known is Ok
            &&& result matches Ok(located) ==> {
                &&& known == Ok::<Option<Result<Stored, Failure>>, Failure>(
                    located_view(
                        match located {
                            Some(found) => Some(&found),
                            None => None,
                        },
                    ),
                )
                &&& located matches Some(Ok(found)) ==> found.legacy == (canonical is None)
            }
            &&& result matches Err(error) ==> known == Err::<
                Option<Result<Stored, Failure>>,
                Failure,
            >(error@)
        }),
{
    if let Some(error) = refused {
        return Err(error);
    }
    let old = canonical.is_none();
    let file = match canonical {
        Some(file) => Some(file),
        None => legacy,
    };
    match file {
        None => Ok(None),
        Some(Err(error)) => Err(Error::Io(error)),
        Some(Ok(content)) => match parse(content.as_slice()) {
            Ok(receipt) => Ok(Some(Ok(LocatedReceipt { receipt, legacy: old }))),
            Err(error) => Ok(Some(Err(error))),
        },
    }
}

/// How removing a file went.
#[derive(Debug)]
pub enum Removal {
    Removed,
    Missing,
    Failed(String),
}

/// Whether a receipt has to be written under its present name.
pub fn migrate_legacy(located: &LocatedReceipt) -> (needed: bool)
    ensures
        needed == located.legacy,
{
    located.legacy
}

/// After a receipt was written anew and the one under its old name removed:
/// whether the directory has to be synchronized.
pub fn after_removal(removal: Removal) -> (result: Result<bool, Error>)
    ensures
        result is Ok <==> !(removal is Failed),
        result matches Ok(synchronize) ==> synchronize == (removal is Removed),
        result matches Err(error) ==> error@ == Failure::Io(removal->Failed_0@),
{
    match removal {
        Removal::Removed => Ok(true),
        Removal::Missing => Ok(false),
        Removal::Failed(error) => Err(Error::Io(error)),
    }
}

/// The file that a receipt is written to before it takes its name.
pub fn temporary_name(process: u64, nonce: u128) -> (name: String)
    ensures
        name@ == "."@ + CANONICAL_NAME@ + ".tmp."@ + text::decimal(process as nat) + "."@
            + text::decimal(nonce as nat),
{
    let mut name = ".".to_owned();
    name.append(CANONICAL_NAME);
    name.append(".tmp.");
    let shown = text::decimal_text(process);
    name.append(shown.as_str());
    name.append(".");
    let shown = text::decimal_wide(nonce);
    name.append(shown.as_str());
    name
}

/// The file that a creation receipt is written to before it takes its name.
pub fn creation_temporary_name(process: u64) -> (name: String)
    ensures
        name@ == "."@ + CREATION_NAME@ + "."@ + text::decimal(process as nat) + ".tmp"@,
{
    let mut name = ".".to_owned();
    name.append(CREATION_NAME);
    name.append(".");
    let shown = text::decimal_text(process);
    name.append(shown.as_str());
    name.append(".tmp");
    name
}

/// A finished creation.
#[derive(Debug)]
pub struct CreationReceipt {
    pub version: u32,
    pub operation: String,
    pub target_commit: String,
    pub source_commits: Vec<String>,
    pub cloned_files: u64,
    pub completed_at: String,
}

/// What a creation receipt says.
pub struct Created {
    pub version: u32,
    pub operation: Seq<char>,
    pub target_commit: Seq<char>,
    pub source_commits: Seq<Seq<char>>,
    pub cloned_files: u64,
    pub completed_at: Seq<char>,
}

impl View for CreationReceipt {
    type V = Created;

    open spec fn view(&self) -> Created {
        Created {
            version: self.version,
            operation: self.operation@,
            target_commit: self.target_commit@,
            source_commits: text::texts(self.source_commits@),
            cloned_files: self.cloned_files,
            completed_at: self.completed_at@,
        }
    }
}

pub open spec fn is_hex(byte: u8) -> bool {
    48 <= byte <= 57 || 65 <= byte <= 70 || 97 <= byte <= 102
}

/// The text of an object's name: 40 or 64 hexadecimal digits.
pub open spec fn is_oid(oid: Seq<char>) -> bool {
    let digits = encode_utf8(oid);
    &&& digits.len() == 40 || digits.len() == 64
    &&& forall|i: int| 0 <= i < digits.len() ==> is_hex(#[trigger] digits[i])
}

pub fn valid_oid(oid: &str) -> (yes: bool)
    ensures
        yes == is_oid(oid@),
{
    let digits = oid.as_bytes();
    if digits.len() != 40 && digits.len() != 64 {
        return false;
    }
    for i in 0..digits.len()
        invariant
            digits@ == encode_utf8(oid@),
            forall|j: int| 0 <= j < i ==> is_hex(#[trigger] digits@[j]),
    {
        let byte = digits[i];
        if !((48 <= byte && byte <= 57) || (65 <= byte && byte <= 70) || (97 <= byte && byte
            <= 102)) {
            assert(!is_hex(digits@[i as int]));
            return false;
        }
    }
    true
}

/// A creation receipt that can be relied on: of this version, for clones from
/// at least one source, with the names of commits of one kind.
pub open spec fn is_sound(receipt: Created) -> bool {
    &&& receipt.version == 1
    &&& receipt.operation == "create"@
    &&& receipt.source_commits.len() > 0
    &&& receipt.cloned_files > 0
    &&& is_oid(receipt.target_commit)
    &&& forall|i: int|
        0 <= i < receipt.source_commits.len() ==> is_oid(#[trigger] receipt.source_commits[i])
            && encode_utf8(receipt.source_commits[i]).len() == encode_utf8(
            receipt.target_commit,
        ).len()
    &&& receipt.completed_at.len() > 0
}

/// What the creation receipt of clones that were made says.
pub open spec fn created(
    target: Seq<char>,
    sources: Seq<Seq<char>>,
    cloned_files: u64,
    completed_at: Seq<char>,
) -> Created {
    Created {
        version: 1,
        operation: "create"@,
        target_commit: target,
        source_commits: sources,
        cloned_files,
        completed_at,
    }
}

/// The creation receipt of clones that were made.
pub fn creation_receipt(
    target: &str,
    sources: &Vec<String>,
    cloned_files: u64,
    completed_at: String,
) -> (receipt: CreationReceipt)
    ensures
        receipt@ == created(target@, text::texts(sources@), cloned_files, completed_at@),
{
    let mut source_commits: Vec<String> = Vec::new();
    for i in 0..sources.len()
        invariant
            text::texts(source_commits@) == text::texts(sources@).take(i as int),
    {
        let ghost before = text::texts(source_commits@);
        let one = sources[i].as_str().to_owned();
        let ghost v = one@;
        source_commits.push(one);
        assert(text::texts(source_commits@) =~= before.push(v));
        assert(text::texts(sources@).take(i + 1) =~= before.push(v));
    }
    assert(text::texts(sources@).take(sources@.len() as int) =~= text::texts(sources@));
    CreationReceipt {
        version: 1,
        operation: "create".to_owned(),
        target_commit: target.to_owned(),
        source_commits,
        cloned_files,
        completed_at,
    }
}

/// What was found of a creation receipt.
#[derive(Debug)]
pub enum CreationRead {
    /// The administration directory is not known.
    NoDirectory,
    Missing,
    Unreadable,
    /// The file is no creation receipt.
    Malformed,
    Read(CreationReceipt),
}

/// What is known of a worktree without a compaction receipt.
pub open spec fn created_state(read: CreationRead, head: Seq<char>) -> ReceiptState {
    match read {
        CreationRead::NoDirectory => ReceiptState::Unknown,
        CreationRead::Missing => ReceiptState::NotCompacted,
        CreationRead::Unreadable => ReceiptState::Unknown,
        CreationRead::Malformed => ReceiptState::Invalid,
        CreationRead::Read(receipt) => if !is_sound(receipt@) {
            ReceiptState::Invalid
        } else if receipt@.target_commit == head {
            ReceiptState::Created
        } else {
            ReceiptState::Stale
        },
    }
}

fn sound(receipt: &CreationReceipt) -> (yes: bool)
    ensures
        yes == is_sound(receipt@),
{
    if receipt.version != 1 || !text::same(receipt.operation.as_str(), "create")
        || receipt.source_commits.len() == 0 || receipt.cloned_files == 0 || !valid_oid(
        receipt.target_commit.as_str(),
    ) {
        return false;
    }
    let length: usize = receipt.target_commit.as_str().as_bytes().len();
    let ghost commits = receipt@.source_commits;
    for i in 0..receipt.source_commits.len()
        invariant
            commits == text::texts(receipt.source_commits@),
            length == encode_utf8(receipt.target_commit@).len(),
            forall|j: int|
                0 <= j < i ==> is_oid(#[trigger] commits[j]) && encode_utf8(commits[j]).len()
                    == length,
    {
        let oid = receipt.source_commits[i].as_str();
        assert(commits[i as int] == oid@);
        if !valid_oid(oid) || oid.as_bytes().len() != length {
            return false;
        }
    }
    !receipt.completed_at.as_str().is_empty()
}

/// What is known of a worktree without a compaction receipt, from what was
/// found of its creation receipt.
pub fn creation_state(read: &CreationRead, head: &str) -> (result: ReceiptState)
    ensures
        result == created_state(*read, head@),
{
    match read {
        CreationRead::NoDirectory => ReceiptState::Unknown,
        CreationRead::Missing => ReceiptState::NotCompacted,
        CreationRead::Unreadable => ReceiptState::Unknown,
        CreationRead::Malformed => ReceiptState::Invalid,
        CreationRead::Read(receipt) => {
            if !sound(receipt) {
                ReceiptState::Invalid
            } else if text::same(receipt.target_commit.as_str(), head) {
                ReceiptState::Created
            } else {
                ReceiptState::Stale
            }
        },
    }
}

/// The receipt of a creation with at least one clone makes the worktree known as
/// created while its head stays, whatever becomes of the donors, and as stale
/// once the head moves.
pub proof fn created_until_head_moves(
    receipt: CreationReceipt,
    target: Seq<char>,
    sources: Seq<Seq<char>>,
    cloned_files: u64,
    completed_at: Seq<char>,
    head: Seq<char>,
)
    requires
        receipt@ == created(target, sources, cloned_files, completed_at),
        cloned_files > 0,
        sources.len() > 0,
        is_oid(target),
        forall|i: int|
            0 <= i < sources.len() ==> is_oid(#[trigger] sources[i]) && encode_utf8(
                sources[i],
            ).len() == encode_utf8(target).len(),
        crate::clock::is_timestamp(completed_at),
    ensures
        created_state(CreationRead::Read(receipt), head) == (if head == target {
            ReceiptState::Created
        } else {
            ReceiptState::Stale
        }),
{
}

/// A receipt is current while the commits stay that it is bound to: the
/// target's, and the source's where it names one branch. A receipt for several
/// sources is bound to its target alone. Otherwise it is stale, and without a
/// receipt nothing was compacted.
pub proof fn receipts_are_bound_to_commits(
    receipt: Stored,
    failure: Failure,
    head: Seq<char>,
    tip: Option<Seq<char>>,
)
    ensures
        target_state(Some(Ok(receipt)), head, tip) == (if receipt.target_commit == head && (
        receipt.source_branch == "multi"@ || tip == Some(receipt.source_commit)) {
            ReceiptState::Compacted
        } else {
            ReceiptState::Stale
        }),
        target_state(Some(Err(failure)), head, tip) == ReceiptState::Invalid,
        target_state(None, head, tip) == ReceiptState::NotCompacted,
        receipt_state(Some(Ok(receipt)), tip->0, head) == (if receipt.source_commit == tip->0
            && receipt.target_commit == head {
            ReceiptState::Compacted
        } else {
            ReceiptState::Stale
        }),
        receipt_state(None, tip->0, head) == ReceiptState::NotCompacted,
        receipt_state(Some(Err(failure)), tip->0, head) == ReceiptState::Invalid,
{
}

/// The file under the present name counts, whatever stands under the old one;
/// the old one counts where there is no other.
pub proof fn the_present_name_counts_first(
    canonical: Option<Result<Vec<u8>, String>>,
    legacy: Option<Result<Vec<u8>, String>>,
    other: Option<Result<Vec<u8>, String>>,
    refusal: Error,
)
    ensures
        canonical is Some ==> located_receipt(None, canonical, legacy) == located_receipt(
            None,
            canonical,
            other,
        ),
        located_receipt(None, None, legacy) == located_receipt(None, legacy, other) || legacy
            is None,
        located_receipt(None, None, None) == Ok::<Option<Result<Stored, Failure>>, Failure>(None),
        canonical matches Some(Ok(content)) ==> located_receipt(None, canonical, legacy) == Ok::<
            Option<Result<Stored, Failure>>,
            Failure,
        >(Some(stored(content@))),
        canonical matches Some(Err(text)) ==> located_receipt(None, canonical, legacy) == Err::<
            Option<Result<Stored, Failure>>,
            Failure,
        >(Failure::Io(text@)),
        located_receipt(Some(refusal), canonical, legacy) == Err::<
            Option<Result<Stored, Failure>>,
            Failure,
        >(refusal@),
{
}

/// A worktree counts as created while its head stays and its creation receipt
/// can be relied on: version 1, of a creation, with a clone and a source, a time,
/// and names of commits of 40 or 64 hexadecimal digits that are all of one
/// length.
pub proof fn creation_receipts_are_checked(receipt: CreationReceipt, head: Seq<char>)
    ensures
        ({
            let target = encode_utf8(receipt.target_commit@);
            let sound = {
                &&& receipt.version == 1
                &&& receipt.operation@ == "create"@
                &&& receipt.source_commits@.len() > 0
                &&& receipt.cloned_files > 0
                &&& receipt.completed_at@.len() > 0
                &&& target.len() == 40 || target.len() == 64
                &&& forall|i: int|
                    0 <= i < target.len() ==> (48 <= #[trigger] target[i] <= 57 || 65 <= target[i]
                        <= 70 || 97 <= target[i] <= 102)
                &&& forall|k: int|
                    0 <= k < receipt.source_commits@.len() ==> {
                        let source = encode_utf8((#[trigger] receipt.source_commits@[k])@);
                        source.len() == target.len() && forall|i: int|
                            0 <= i < source.len() ==> (48 <= #[trigger] source[i] <= 57 || 65
                                <= source[i] <= 70 || 97 <= source[i] <= 102)
                    }
            };
            created_state(CreationRead::Read(receipt), head) == (if !sound {
                ReceiptState::Invalid
            } else if receipt.target_commit@ == head {
                ReceiptState::Created
            } else {
                ReceiptState::Stale
            })
        }),
        created_state(CreationRead::Missing, head) == ReceiptState::NotCompacted,
        created_state(CreationRead::Malformed, head) == ReceiptState::Invalid,
        created_state(CreationRead::Unreadable, head) == ReceiptState::Unknown,
        created_state(CreationRead::NoDirectory, head) == ReceiptState::Unknown,
{
    let seen = receipt@.source_commits;
    assert forall|k: int| 0 <= k < receipt.source_commits@.len() implies #[trigger] seen[k]
        == receipt.source_commits@[k]@ by {}
    if is_sound(receipt@) {
        assert forall|k: int| 0 <= k < receipt.source_commits@.len() implies {
            let source = encode_utf8((#[trigger] receipt.source_commits@[k])@);
            source.len() == encode_utf8(receipt.target_commit@).len() && forall|i: int|
                0 <= i < source.len() ==> (48 <= #[trigger] source[i] <= 57 || 65 <= source[i]
                    <= 70 || 97 <= source[i] <= 102)
        } by {
            assert(is_oid(seen[k]));
            let source = encode_utf8(seen[k]);
            assert forall|i: int| 0 <= i < source.len() implies (48 <= #[trigger] source[i] <= 57
                || 65 <= source[i] <= 70 || 97 <= source[i] <= 102) by {
                assert(is_hex(source[i]));
            }
        }
        let target = encode_utf8(receipt.target_commit@);
        assert forall|i: int| 0 <= i < target.len() implies (48 <= #[trigger] target[i] <= 57 || 65
            <= target[i] <= 70 || 97 <= target[i] <= 102) by {
            assert(is_hex(target[i]));
        }
    }
}

proof fn lemma_line_field(line: Seq<char>, key: Seq<char>, value: Seq<char>)
    ensures
        line_field(line) == Some((key, value)) <==> line == key + seq!['='] + value
            && !key.contains('='),
        line_field(line) is None <==> !line.contains('='),
{
    bytes::lemma_index_of(line, '=');
    let at = bytes::index_of(line, '=');
    if line_field(line) == Some((key, value)) {
        assert(line =~= key + seq!['='] + value);
        if key.contains('=') {
            let k = choose|k: int| 0 <= k < key.len() && key[k] == '=';
            assert(line[k] == '=');
        }
    }
    if line == key + seq!['='] + value && !key.contains('=') {
        assert(line[key.len() as int] == '=');
        if at < key.len() {
            assert(line[at] == key[at]);
            assert(key.contains(key[at]));
        }
        assert(at == key.len());
        assert(line.take(at) =~= key);
        assert(line.skip(at + 1) =~= value);
    }
    if at < line.len() {
        assert(line.contains(line[at]));
    }
    if line.contains('=') {
        let k = choose|k: int| 0 <= k < line.len() && line[k] == '=';
        assert(line[k] == '=');
    }
}

/// Where the lines of a receipt can be read, a field has the value that stands
/// behind the first equals sign of the line with its name, and no other.
pub proof fn fields_have_the_values_of_their_lines(
    lines: Seq<Seq<char>>,
    key: Seq<char>,
    value: Seq<char>,
)
    requires
        read_lines(lines) is Ok,
    ensures
        value_of(read_lines(lines)->Ok_0, key) == Some(value) <==> !key.contains('=') && exists|
            i: int,
        |
            0 <= i < lines.len() && #[trigger] lines[i] == key + seq!['='] + value,
    decreases lines.len(),
{
    if lines.len() > 0 {
        let init = lines.drop_last();
        let n = lines.len() - 1;
        let last = lines[n];
        assert(last == lines.last());
        fields_have_the_values_of_their_lines(init, key, value);
        lemma_line_field(last, key, value);
        let before = read_lines(init)->Ok_0;
        let fields = read_lines(lines)->Ok_0;
        if last.len() > 0 {
            let (k, v) = line_field(last)->0;
            assert(fields == before.push((k, v)));
            assert(fields.drop_last() =~= before);
            lemma_line_field(last, k, v);
        }
        if exists|i: int| 0 <= i < init.len() && #[trigger] init[i] == key + seq!['='] + value {
            let i = choose|i: int|
                0 <= i < init.len() && #[trigger] init[i] == key + seq!['='] + value;
            assert(lines[i] == init[i]);
        }
        if exists|i: int| 0 <= i < lines.len() && #[trigger] lines[i] == key + seq!['='] + value {
            let i = choose|i: int|
                0 <= i < lines.len() && #[trigger] lines[i] == key + seq!['='] + value;
            if i < n {
                assert(init[i] == lines[i]);
            } else {
                assert((key + seq!['='] + value).len() > 0);
            }
        }
    }
}

/// Line by line: an empty line says nothing, a line without an equals sign and a
/// name that was there before are errors, and any other line adds its field. The
/// first error counts.
pub proof fn lines_are_read_one_by_one(lines: Seq<Seq<char>>, line: Seq<char>)
    ensures
        read_lines(Seq::empty()) == Ok::<Seq<(Seq<char>, Seq<char>)>, Failure>(Seq::empty()),
        read_lines(lines) is Err ==> read_lines(lines.push(line)) == read_lines(lines),
        read_lines(lines) matches Ok(before) ==> {
            let after = read_lines(lines.push(line));
            &&& line.len() == 0 ==> after == read_lines(lines)
            &&& line.len() > 0 && !line.contains('=') ==> after == Err::<
                Seq<(Seq<char>, Seq<char>)>,
                Failure,
            >(Failure::Message("malformed receipt line"@))
            &&& forall|key: Seq<char>, value: Seq<char>|
                line == #[trigger] (key + seq!['='] + value) && !key.contains('=') ==> after == (
                if value_of(before, key) is Some {
                    Err::<Seq<(Seq<char>, Seq<char>)>, Failure>(
                        Failure::Message("duplicate receipt field: "@ + key),
                    )
                } else {
                    Ok(before.push((key, value)))
                })
        },
{
    let more = lines.push(line);
    assert(more.drop_last() =~= lines);
    lemma_line_field(line, Seq::empty(), Seq::empty());
    assert forall|key: Seq<char>, value: Seq<char>|
        line == #[trigger] (key + seq!['='] + value) && !key.contains('=') implies line_field(line)
        == Some((key, value)) && line.len() > 0 by {
        lemma_line_field(line, key, value);
    }
}

/// A field is there and not empty.
pub open spec fn is_given(fields: Seq<(Seq<char>, Seq<char>)>, key: Seq<char>) -> bool {
    value_of(fields, key) is Some && value_of(fields, key)->0.len() > 0
}

/// A receipt of version 1 with all its fields is read as they are; the number of
/// files and, where it is there, that of bytes have to be numbers. A field that is
/// missing or empty is named, the first in their order.
pub proof fn receipts_hold_their_fields(fields: Seq<(Seq<char>, Seq<char>)>)
    ensures
        ({
            let bytes = value_of(fields, "eligible_allocated_bytes"@);
            let fine = {
                &&& value_of(fields, "version"@) == Some("1"@)
                &&& is_given(fields, "source_branch"@)
                &&& is_given(fields, "source_commit"@)
                &&& is_given(fields, "target_commit"@)
                &&& is_given(fields, "excluded_hash"@)
                &&& is_given(fields, "cloned_files"@)
                &&& text::parsed_u64(value_of(fields, "cloned_files"@)->0) is Some
                &&& bytes is Some ==> text::parsed_u64(bytes->0) is Some
                &&& is_given(fields, "completed_at"@)
            };
            let read = receipt_of(fields);
            &&& read is Ok <==> fine
            &&& read matches Ok(receipt) ==> {
                &&& receipt.source_branch == value_of(fields, "source_branch"@)->0
                &&& receipt.source_commit == value_of(fields, "source_commit"@)->0
                &&& receipt.target_commit == value_of(fields, "target_commit"@)->0
                &&& receipt.excluded_hash == value_of(fields, "excluded_hash"@)->0
                &&& receipt.completed_at == value_of(fields, "completed_at"@)->0
                &&& Some(receipt.cloned_files) == text::parsed_u64(
                    value_of(fields, "cloned_files"@)->0,
                )
                &&& bytes is None ==> receipt.eligible_allocated_bytes is None
                &&& bytes is Some ==> receipt.eligible_allocated_bytes == text::parsed_u64(bytes->0)
            }
            &&& value_of(fields, "version"@) != Some("1"@) ==> read == Err::<Stored, Failure>(
                Failure::Message("unsupported receipt version"@),
            )
            &&& value_of(fields, "version"@) == Some("1"@) && !is_given(fields, "source_branch"@)
                ==> read == Err::<Stored, Failure>(
                Failure::Message("receipt is missing "@ + "source_branch"@),
            )
        }),
{
}

/// A receipt is written as one line for each field, in this order, with the name
/// before an equals sign and the value behind it.
pub proof fn receipts_are_written_field_by_field(receipt: Stored)
    ensures
        ({
            let lines = receipt_lines(receipt);
            let n = lines.len() as int;
            &&& n == if receipt.eligible_allocated_bytes is Some {
                8int
            } else {
                7
            }
            &&& lines[0] == "version"@ + seq!['='] + "1"@
            &&& lines[1] == "source_branch"@ + seq!['='] + receipt.source_branch
            &&& lines[2] == "source_commit"@ + seq!['='] + receipt.source_commit
            &&& lines[3] == "target_commit"@ + seq!['='] + receipt.target_commit
            &&& lines[4] == "excluded_hash"@ + seq!['='] + receipt.excluded_hash
            &&& lines[5] == "cloned_files"@ + seq!['='] + text::decimal(
                receipt.cloned_files as nat,
            )
            &&& receipt.eligible_allocated_bytes is Some ==> lines[6]
                == "eligible_allocated_bytes"@ + seq!['='] + text::decimal(
                receipt.eligible_allocated_bytes->0 as nat,
            )
            &&& lines[n - 1] == "completed_at"@ + seq!['='] + receipt.completed_at
        }),
{
    let lines = receipt_lines(receipt);
    let n = lines.len() as int;
    assert(lines[0] =~= "version"@ + seq!['='] + "1"@);
    assert(lines[1] =~= "source_branch"@ + seq!['='] + receipt.source_branch);
    assert(lines[2] =~= "source_commit"@ + seq!['='] + receipt.source_commit);
    assert(lines[3] =~= "target_commit"@ + seq!['='] + receipt.target_commit);
    assert(lines[4] =~= "excluded_hash"@ + seq!['='] + receipt.excluded_hash);
    assert(lines[5] =~= "cloned_files"@ + seq!['='] + text::decimal(receipt.cloned_files as nat));
    if receipt.eligible_allocated_bytes is Some {
        assert(lines[6] =~= "eligible_allocated_bytes"@ + seq!['='] + text::decimal(
            receipt.eligible_allocated_bytes->0 as nat,
        ));
    }
    assert(lines[n - 1] =~= "completed_at"@ + seq!['='] + receipt.completed_at);
}

/// A creation is recorded as version 1 of a creation, with what it was made of.
pub proof fn creations_are_recorded_in_full(
    target: Seq<char>,
    sources: Seq<Seq<char>>,
    cloned_files: u64,
    completed_at: Seq<char>,
)
    ensures
        ({
            let receipt = created(target, sources, cloned_files, completed_at);
            &&& receipt.version == 1
            &&& receipt.operation == "create"@
            &&& receipt.target_commit == target
            &&& receipt.source_commits == sources
            &&& receipt.cloned_files == cloned_files
            &&& receipt.completed_at == completed_at
        }),
{
}

/// Receipts are seen as they are.
pub proof fn receipts_are_seen_as_they_are(receipt: Receipt, creation: CreationReceipt, i: int)
    ensures
        receipt@.source_branch == receipt.source_branch@,
        receipt@.source_commit == receipt.source_commit@,
        receipt@.target_commit == receipt.target_commit@,
        receipt@.excluded_hash == receipt.excluded_hash@,
        receipt@.cloned_files == receipt.cloned_files,
        receipt@.eligible_allocated_bytes == receipt.eligible_allocated_bytes,
        receipt@.completed_at == receipt.completed_at@,
        creation@.version == creation.version,
        creation@.operation == creation.operation@,
        creation@.target_commit == creation.target_commit@,
        creation@.cloned_files == creation.cloned_files,
        creation@.completed_at == creation.completed_at@,
        creation@.source_commits.len() == creation.source_commits@.len(),
        0 <= i < creation.source_commits@.len() ==> creation@.source_commits[i]
            == creation.source_commits@[i]@,
{
}

/// The receipts have these file names.
pub proof fn receipts_have_their_names()
    ensures
        CANONICAL_NAME@ == "cowtree-compaction"@,
        LEGACY_NAME@ == "wt-prewarm-compaction"@,
        CREATION_NAME@ == "cowtree-creation"@,
{
}

/// A receipt that lacks something is refused for the first of these that it
/// lacks: its version, then its fields in the order in which they are written. A
/// number that is none is found behind the fields before it.
pub proof fn what_a_receipt_lacks_is_named(fields: Seq<(Seq<char>, Seq<char>)>)
    requires
        value_of(fields, "version"@) == Some("1"@),
        is_given(fields, "source_branch"@),
    ensures
        ({
            let missing = |key: Seq<char>| Err::<Stored, Failure>(
                Failure::Message("receipt is missing "@ + key),
            );
            let count = value_of(fields, "cloned_files"@);
            let bytes = value_of(fields, "eligible_allocated_bytes"@);
            receipt_of(fields) is Err ==> receipt_of(fields) == (if !is_given(
                fields,
                "source_commit"@,
            ) {
                missing("source_commit"@)
            } else if !is_given(fields, "target_commit"@) {
                missing("target_commit"@)
            } else if !is_given(fields, "excluded_hash"@) {
                missing("excluded_hash"@)
            } else if !is_given(fields, "cloned_files"@) {
                missing("cloned_files"@)
            } else if text::parsed_u64(count->0) is None {
                Err(Failure::Message("invalid cloned_files"@))
            } else if bytes is Some && text::parsed_u64(bytes->0) is None {
                Err(Failure::Message("invalid eligible_allocated_bytes"@))
            } else {
                missing("completed_at"@)
            })
        }),
{
}

/// A receipt is read from the lines of its text, where it is one.
pub proof fn receipts_are_text(content: Seq<u8>)
    ensures
        !valid_utf8(content) ==> stored(content) == Err::<Stored, Failure>(
            Failure::Message("receipt is not UTF-8"@),
        ),
        valid_utf8(content) ==> match read_lines(text::lines(decode_utf8(content))) {
            Ok(fields) => stored(content) == receipt_of(fields),
            Err(failure) => stored(content) == Err::<Stored, Failure>(failure),
        },
{
}

} // verus!
