//! The clone operations of the system: what they report, what they are named,
//! and what is left of them.
use crate::bytes;
use crate::error::{Error, Failure};
use crate::pathmap;
use crate::paths;
use crate::text;
use vstd::prelude::*;
use vstd::string::*;
use vstd::utf8::*;

verus! {

/// What became of a file that was to be cloned.
#[derive(Clone, Copy, Debug, PartialEq, Eq, Structural)]
pub enum CloneOutcome {
    Cloned,
    ChangedDuringClone,
    NotRegular,
}

/// What tells a file apart from any other and from itself before a change.
#[derive(Clone, Copy, Debug, PartialEq, Eq, Structural)]
pub struct Identity {
    pub device: u64,
    pub inode: u64,
    pub size: u64,
    pub modified_seconds: i64,
    pub modified_nanoseconds: i64,
    pub changed_seconds: i64,
    pub changed_nanoseconds: i64,
}

/// Where an object stands: the volume and its number there.
#[derive(Clone, Copy, Debug, PartialEq, Eq, Structural)]
pub struct Place {
    pub device: u64,
    pub inode: u64,
}

impl Identity {
    pub fn place(&self) -> (place: Place)
        ensures
            place.device == self.device,
            place.inode == self.inode,
    {
        Place { device: self.device, inode: self.inode }
    }
}

/// A system that can clone files.
pub trait ClonePlatform {
    /// Whether files of `source` can be cloned into `target`.
    fn validate(&self, source: &[u8], target: &[u8]) -> (result: Result<(), Error>);

    /// Replaces a file of the target by a clone of the one in the source.
    fn clone_replacing(
        &self,
        source_root: &[u8],
        target_root: &[u8],
        relative: &[u8],
        expected_oid: &str,
        sequence: u64,
    ) -> (result: Result<CloneOutcome, Error>);
}

/// A system without clones.
pub struct SystemPlatform;

impl ClonePlatform for SystemPlatform {
    fn validate(&self, source: &[u8], target: &[u8]) -> (result: Result<(), Error>)
        ensures
            result matches Err(error) && error@ == Failure::UnsupportedFilesystem(
                "cowtree v1 requires macOS on APFS"@,
            ),
    {
        Err(Error::UnsupportedFilesystem("cowtree v1 requires macOS on APFS".to_owned()))
    }

    fn clone_replacing(
        &self,
        source_root: &[u8],
        target_root: &[u8],
        relative: &[u8],
        expected_oid: &str,
        sequence: u64,
    ) -> (result: Result<CloneOutcome, Error>)
        ensures
            result matches Err(error) && error@ == Failure::UnsupportedFilesystem(
                "cowtree v1 requires macOS on APFS"@,
            ),
    {
        Err(Error::UnsupportedFilesystem("cowtree v1 requires macOS on APFS".to_owned()))
    }
}

/// The steps of a clone whose time is measured.
#[derive(Clone, Copy, Debug, PartialEq, Eq, Structural)]
pub enum ClonePhase {
    SourceLookup,
    SourceMetadata,
    DonorVerification,
    SourceStability,
    TargetLookup,
    CloneFile,
    DestinationLookup,
    RaceValidation,
    MetadataFinalization,
}

/// The number of measured steps.
pub const CLONE_PHASES: usize = 9;

pub open spec fn phase_number(phase: ClonePhase) -> int {
    match phase {
        ClonePhase::SourceLookup => 0,
        ClonePhase::SourceMetadata => 1,
        ClonePhase::DonorVerification => 2,
        ClonePhase::SourceStability => 3,
        ClonePhase::TargetLookup => 4,
        ClonePhase::CloneFile => 5,
        ClonePhase::DestinationLookup => 6,
        ClonePhase::RaceValidation => 7,
        ClonePhase::MetadataFinalization => 8,
    }
}

fn phase_index(phase: ClonePhase) -> (index: usize)
    ensures
        index as int == phase_number(phase),
        index < CLONE_PHASES,
{
    match phase {
        ClonePhase::SourceLookup => 0,
        ClonePhase::SourceMetadata => 1,
        ClonePhase::DonorVerification => 2,
        ClonePhase::SourceStability => 3,
        ClonePhase::TargetLookup => 4,
        ClonePhase::CloneFile => 5,
        ClonePhase::DestinationLookup => 6,
        ClonePhase::RaceValidation => 7,
        ClonePhase::MetadataFinalization => 8,
    }
}

/// What the measured steps are called, in their order.
pub open spec fn phase_labels() -> Seq<Seq<char>> {
    seq![
        "clone source lookup/open"@,
        "clone source metadata/xattrs"@,
        "donor hashing"@,
        "clone preflight stability"@,
        "clone target lookup"@,
        "APFS clone syscall"@,
        "clone destination open/metadata"@,
        "clone postflight validation"@,
        "clone permissions/timestamps"@,
    ]
}

fn phase_label(index: usize) -> (label: &'static str)
    requires
        index < CLONE_PHASES,
    ensures
        label@ == phase_labels()[index as int],
{
    if index == 0 {
        "clone source lookup/open"
    } else if index == 1 {
        "clone source metadata/xattrs"
    } else if index == 2 {
        "donor hashing"
    } else if index == 3 {
        "clone preflight stability"
    } else if index == 4 {
        "clone target lookup"
    } else if index == 5 {
        "APFS clone syscall"
    } else if index == 6 {
        "clone destination open/metadata"
    } else if index == 7 {
        "clone postflight validation"
    } else {
        "clone permissions/timestamps"
    }
}

/// Time spent in each measured step.
pub struct CloneTimings {
    nanoseconds: Vec<u64>,
}

/// A duration as it is counted: no more than 64 bits hold.
pub open spec fn capped(nanoseconds: u128) -> u64 {
    if nanoseconds <= u64::MAX {
        nanoseconds as u64
    } else {
        u64::MAX
    }
}

/// The sums after a duration was added to a step's, around zero where 64 bits do
/// not hold the sum.
pub open spec fn recorded(sums: Seq<u64>, phase: ClonePhase, nanoseconds: u128) -> Seq<u64> {
    Seq::new(
        sums.len(),
        |i: int|
            if i == phase_number(phase) {
                ((sums[i] + capped(nanoseconds)) % 0x1_0000_0000_0000_0000) as u64
            } else {
                sums[i]
            },
    )
}

/// The sums after one duration after the other was added.
pub open spec fn all_recorded(sums: Seq<u64>, durations: Seq<(ClonePhase, u128)>) -> Seq<u64> {
    durations.fold_left(
        sums,
        |sums: Seq<u64>, duration: (ClonePhase, u128)| recorded(sums, duration.0, duration.1),
    )
}

proof fn lemma_two_sums(a: u64, b: u64, c: u64)
    ensures
        ((((a + b) % 0x1_0000_0000_0000_0000) as u64 + c) % 0x1_0000_0000_0000_0000) as u64 == ((((
        a + c) % 0x1_0000_0000_0000_0000) as u64 + b) % 0x1_0000_0000_0000_0000) as u64,
{
    let limit: int = 0x1_0000_0000_0000_0000;
    assert(((a + b) % limit + c) % limit == (a + b + c) % limit) by {
        vstd::arithmetic::div_mod::lemma_add_mod_noop_right(c as int, a + b, limit);
    }
    assert(((a + c) % limit + b) % limit == (a + c + b) % limit) by {
        vstd::arithmetic::div_mod::lemma_add_mod_noop_right(b as int, a + c, limit);
    }
}

proof fn lemma_two_recorded(sums: Seq<u64>, x: (ClonePhase, u128), y: (ClonePhase, u128))
    ensures
        recorded(recorded(sums, x.0, x.1), y.0, y.1) == recorded(
            recorded(sums, y.0, y.1),
            x.0,
            x.1,
        ),
{
    let one = recorded(recorded(sums, x.0, x.1), y.0, y.1);
    let other = recorded(recorded(sums, y.0, y.1), x.0, x.1);
    let p = phase_number(x.0);
    let q = phase_number(y.0);
    let b = capped(x.1);
    let c = capped(y.1);
    assert forall|i: int| 0 <= i < sums.len() implies #[trigger] one[i] == other[i] by {
        lemma_two_sums(sums[i], b, c);
        assert(recorded(sums, x.0, x.1)[i] == if i == p {
            ((sums[i] + b) % 0x1_0000_0000_0000_0000) as u64
        } else {
            sums[i]
        });
        assert(recorded(sums, y.0, y.1)[i] == if i == q {
            ((sums[i] + c) % 0x1_0000_0000_0000_0000) as u64
        } else {
            sums[i]
        });
    }
    assert(one =~= other);
}

/// The sums do not depend on the order in which durations are recorded, so
/// workers may record theirs as they come.
pub proof fn timings_ignore_order(
    sums: Seq<u64>,
    one: Seq<(ClonePhase, u128)>,
    other: Seq<(ClonePhase, u128)>,
)
    requires
        one.to_multiset() == other.to_multiset(),
    ensures
        all_recorded(sums, one) == all_recorded(sums, other),
{
    let step = |sums: Seq<u64>, duration: (ClonePhase, u128)|
        recorded(sums, duration.0, duration.1);
    assert forall|x: (ClonePhase, u128), y: (ClonePhase, u128), v: Seq<u64>| #[trigger]
        step(step(v, x), y) == step(step(v, y), x) by {
        lemma_two_recorded(v, x, y);
    }
    vstd::seq_lib::lemma_fold_left_permutation(one, other, step, sums);
}

impl CloneTimings {
    /// Nanoseconds by step.
    pub closed spec fn view(&self) -> Seq<u64> {
        self.nanoseconds@
    }

    #[verifier::type_invariant]
    closed spec fn inv(&self) -> bool {
        self.nanoseconds@.len() == CLONE_PHASES
    }

    pub fn new() -> (timings: Self)
        ensures
            timings@ == Seq::new(CLONE_PHASES as nat, |i: int| 0u64),
    {
        let mut nanoseconds: Vec<u64> = Vec::new();
        for i in 0..CLONE_PHASES
            invariant
                nanoseconds@ == Seq::new(i as nat, |j: int| 0u64),
        {
            nanoseconds.push(0);
            assert(nanoseconds@ =~= Seq::new((i + 1) as nat, |j: int| 0u64));
        }
        CloneTimings { nanoseconds }
    }

    /// Adds a duration to a step, around zero where 64 bits do not hold the sum.
    pub fn record(&mut self, phase: ClonePhase, nanoseconds: u128)
        ensures
            final(self)@ == recorded(old(self)@, phase, nanoseconds),
    {
        proof {
            use_type_invariant(&*self);
        }
        let index = phase_index(phase);
        let amount: u64 = if nanoseconds <= 0xffff_ffff_ffff_ffff {
            nanoseconds as u64
        } else {
            0xffff_ffff_ffff_ffff
        };
        let mut all: Vec<u64> = Vec::new();
        for i in 0..self.nanoseconds.len()
            invariant
                all@ == self.nanoseconds@.take(i as int),
        {
            all.push(self.nanoseconds[i]);
            assert(all@ =~= self.nanoseconds@.take(i + 1));
        }
        assert(all@ =~= self.nanoseconds@);
        let sum: u64 = all[index].wrapping_add(amount);
        all.set(index, sum);
        assert(all@ =~= recorded(self.nanoseconds@, phase, nanoseconds));
        self.nanoseconds = all;
    }

    /// Each step's name and nanoseconds.
    pub fn summary(&self) -> (entries: Vec<(&'static str, u64)>)
        ensures
            entries@.len() == CLONE_PHASES,
            forall|i: int|
                0 <= i < CLONE_PHASES ==> (#[trigger] entries@[i]).0@ == phase_labels()[i]
                    && entries@[i].1 == self@[i],
    {
        proof {
            use_type_invariant(self);
        }
        let mut entries: Vec<(&'static str, u64)> = Vec::new();
        for i in 0..CLONE_PHASES
            invariant
                self.nanoseconds@.len() == CLONE_PHASES,
                entries@.len() == i,
                forall|j: int|
                    0 <= j < i ==> (#[trigger] entries@[j]).0@ == phase_labels()[j] && entries@[j].1
                        == self.nanoseconds@[j],
        {
            entries.push((phase_label(i), self.nanoseconds[i]));
        }
        entries
    }
}

/// Whether files of one volume can be cloned into another: they have to be one
/// volume, and of a kind that shares blocks.
pub fn validate_filesystem(
    source_device: u64,
    target_device: u64,
    filesystem: Result<String, Error>,
) -> (result: Result<(), Error>)
    ensures
        result is Ok <==> source_device == target_device && filesystem is Ok
            && filesystem->Ok_0@ == "apfs"@,
        result matches Err(error) ==> error@ == (if source_device != target_device {
            Failure::CrossVolume
        } else {
            match filesystem {
                Ok(name) => Failure::UnsupportedFilesystem(name@),
                Err(error) => error@,
            }
        }),
{
    if source_device != target_device {
        return Err(Error::CrossVolume);
    }
    match filesystem {
        Ok(name) => {
            if text::same(name.as_str(), "apfs") {
                Ok(())
            } else {
                Err(Error::UnsupportedFilesystem(name))
            }
        },
        Err(error) => Err(error),
    }
}

/// The name in a fixed field: what stands before its first NUL.
pub fn filesystem_type(field: &[u8]) -> (name: String)
    ensures
        name@ == text::lossy_text(field@.take(bytes::index_of(field@, 0))),
{
    let end = bytes::position(field, 0);
    proof {
        bytes::lemma_index_of(field@, 0u8);
    }
    let used = bytes::slice(field, 0, end);
    assert(used@ =~= field@.take(end as int));
    text::lossy(used.as_slice())
}

/// A path that can be handed to the system holds no NUL.
pub fn holds_nul(path: &[u8]) -> (yes: bool)
    ensures
        yes == path@.contains(0),
{
    let nul = bytes::position(path, 0);
    proof {
        bytes::lemma_index_of(path@, 0u8);
        if nul < path@.len() {
            assert(path@.contains(0u8));
        }
    }
    nul < path.len()
}

/// Whether only attributes that the system itself manages are set. `size` is
/// how much the list of names takes, `read` how much was read of it; negative
/// where that failed.
pub fn ordinary_attributes(size: i64, read: i64, names: &[u8]) -> (yes: bool)
    ensures
        yes == (size >= 0 && read == size && forall|i: int|
            0 <= i < bytes::split(names@, 0).len() ==> {
                let name = #[trigger] bytes::split(names@, 0)[i];
                name.len() == 0 || name == "com.apple.provenance".spec_bytes()
            }),
{
    if size < 0 || read != size {
        return false;
    }
    let parts = bytes::parts(names, 0);
    let ghost all = bytes::split(names@, 0);
    for i in 0..parts.len()
        invariant
            all == bytes::views(parts@),
            all == bytes::split(names@, 0),
            forall|j: int|
                0 <= j < i ==> (#[trigger] all[j]).len() == 0 || all[j]
                    == "com.apple.provenance".spec_bytes(),
    {
        assert(all[i as int] == parts@[i as int]@);
        if parts[i].len() > 0 && !bytes::equal(
            parts[i].as_slice(),
            "com.apple.provenance".as_bytes(),
        ) {
            assert(!(bytes::split(names@, 0)[i as int].len() == 0 || bytes::split(names@, 0)[i as int]
                == "com.apple.provenance".spec_bytes()));
            return false;
        }
    }
    true
}

/// The permissions of a new file or directory under a mask.
pub open spec fn masked(mode: u32, mask: u32) -> u32 {
    mode & !mask
}

/// The permissions of a checked-out file.
pub fn file_mode(executable: bool, mask: u32) -> (mode: u32)
    ensures
        mode == masked(
            if executable {
                0o777
            } else {
                0o666
            },
            mask,
        ),
{
    (if executable {
        0o777
    } else {
        0o666
    }) & !mask
}

/// The permissions of a checked-out directory.
pub fn directory_mode(mask: u32) -> (mode: u32)
    ensures
        mode == masked(0o777, mask),
{
    0o777 & !mask
}

/// The text of a number's digits as bytes.
pub open spec fn digits(n: nat) -> Seq<u8> {
    encode_utf8(text::decimal(n))
}

/// The name of the clone that is to replace `name`.
pub open spec fn temporary_name(name: Seq<u8>, process: u64, sequence: u64, nonce: u128) -> Seq<
    u8,
> {
    bytes::join(
        seq![
            name,
            "cowtree-clone".spec_bytes(),
            digits(process as nat),
            digits(sequence as nat),
            digits(nonce as nat),
        ],
        paths::DOT,
    )
}

fn append_part(name: &mut Vec<u8>, part: &str)
    ensures
        final(name)@ == old(name)@.push(paths::DOT) + part.spec_bytes(),
{
    name.push(paths::DOT);
    bytes::append(name, part.as_bytes());
}

/// The name of the clone that is to replace `name`. The process that makes it,
/// the number of its job and the time keep it apart from others.
pub fn clone_name(name: &[u8], process: u64, sequence: u64, nonce: u128) -> (result: Vec<u8>)
    ensures
        result@ == temporary_name(name@, process, sequence, nonce),
{
    let ghost parts = seq![
        name@,
        "cowtree-clone".spec_bytes(),
        digits(process as nat),
        digits(sequence as nat),
        digits(nonce as nat),
    ];
    let mut result = bytes::copy(name);
    assert(result@ =~= bytes::join(parts.take(1), paths::DOT));
    append_part(&mut result, "cowtree-clone");
    assert(parts.take(2).drop_last() =~= parts.take(1));
    assert(result@ =~= bytes::join(parts.take(2), paths::DOT));
    let shown = text::decimal_text(process);
    append_part(&mut result, shown.as_str());
    assert(parts.take(3).drop_last() =~= parts.take(2));
    assert(result@ =~= bytes::join(parts.take(3), paths::DOT));
    let shown = text::decimal_text(sequence);
    append_part(&mut result, shown.as_str());
    assert(parts.take(4).drop_last() =~= parts.take(3));
    assert(result@ =~= bytes::join(parts.take(4), paths::DOT));
    let shown = text::decimal_wide(nonce);
    append_part(&mut result, shown.as_str());
    assert(parts.drop_last() =~= parts.take(4));
    assert(result@ =~= bytes::join(parts, paths::DOT));
    result
}

/// The clone that is to replace the file at `relative`, beside it. A path that
/// ends in no name counts as one with an empty name.
pub fn temporary_path(relative: &[u8], process: u64, sequence: u64, nonce: u128) -> (path: Vec<u8>)
    requires
        !paths::is_absolute(relative@),
    ensures
        path@ == paths::joined(
            paths::relative_text(paths::parent_components(relative@)),
            temporary_name(
                match paths::last_name(relative@) {
                    Some(name) => name,
                    None => Seq::empty(),
                },
                process,
                sequence,
                nonce,
            ),
        ),
{
    let name = match paths::file_name(relative) {
        Some(name) => name,
        None => Vec::new(),
    };
    let clone = clone_name(name.as_slice(), process, sequence, nonce);
    let directory = paths::parent(relative);
    paths::join(directory.as_slice(), clone.as_slice())
}

/// The name of a directory that is cloned before it is put in place.
pub fn directory_clone_name(process: u64, sequence: u64, nonce: u128) -> (name: Vec<u8>)
    ensures
        name@ == bytes::join(
            seq![
                ".cowtree-directory".spec_bytes(),
                digits(process as nat),
                digits(sequence as nat),
                digits(nonce as nat),
            ],
            paths::DOT,
        ),
{
    let ghost parts = seq![
        ".cowtree-directory".spec_bytes(),
        digits(process as nat),
        digits(sequence as nat),
        digits(nonce as nat),
    ];
    let mut name = bytes::copy(".cowtree-directory".as_bytes());
    assert(name@ =~= bytes::join(parts.take(1), paths::DOT));
    let shown = text::decimal_text(process);
    append_part(&mut name, shown.as_str());
    assert(parts.take(2).drop_last() =~= parts.take(1));
    assert(name@ =~= bytes::join(parts.take(2), paths::DOT));
    let shown = text::decimal_text(sequence);
    append_part(&mut name, shown.as_str());
    assert(parts.take(3).drop_last() =~= parts.take(2));
    assert(name@ =~= bytes::join(parts.take(3), paths::DOT));
    let shown = text::decimal_wide(nonce);
    append_part(&mut name, shown.as_str());
    assert(parts.drop_last() =~= parts.take(3));
    assert(name@ =~= bytes::join(parts, paths::DOT));
    name
}

/// The decimal text of a number: digits, without a zero in front of others.
pub open spec fn is_decimal(s: Seq<u8>) -> bool {
    &&& s.len() > 0
    &&& forall|i: int| 0 <= i < s.len() ==> 48 <= #[trigger] s[i] <= 57
    &&& s.len() > 1 ==> s[0] != 48
}

/// The number that decimal digits stand for.
pub open spec fn decimal_value(s: Seq<u8>) -> nat
    decreases s.len(),
{
    if s.len() == 0 {
        0
    } else {
        decimal_value(s.drop_last()) * 10 + (s.last() - 48) as nat
    }
}

/// What a clone's name tells: the name that it was to replace and the process
/// that made it.
pub open spec fn clone_origin(name: Seq<u8>) -> Option<(Seq<u8>, u64)> {
    let parts = bytes::split(name, paths::DOT);
    let n = parts.len() as int;
    if n >= 5 && parts[n - 4] == "cowtree-clone".spec_bytes() && is_decimal(parts[n - 3])
        && decimal_value(parts[n - 3]) <= u64::MAX && is_decimal(parts[n - 2]) && is_decimal(
        parts[n - 1],
    ) && bytes::join(parts.take(n - 4), paths::DOT).len() > 0 {
        Some(
            (bytes::join(parts.take(n - 4), paths::DOT), decimal_value(parts[n - 3]) as u64),
        )
    } else {
        None
    }
}

/// The bytes of characters that are all digits.
proof fn lemma_digit_bytes(s: Seq<char>)
    requires
        text::all_digits(s),
    ensures
        encode_utf8(s).len() == s.len(),
        forall|i: int| 0 <= i < s.len() ==> #[trigger] encode_utf8(s)[i] == s[i] as u8,
{
    assert forall|i: int| 0 <= i < s.len() implies 0 <= #[trigger] s[i] as nat <= 127 by {
        assert(text::is_digit(s[i]));
    }
    assert(is_ascii_chars(s));
    is_ascii_chars_encode_utf8(s);
}

proof fn lemma_digit_values(s: Seq<char>, b: Seq<u8>)
    requires
        text::all_digits(s),
        b.len() == s.len(),
        forall|i: int| 0 <= i < s.len() ==> #[trigger] b[i] == s[i] as u8,
    ensures
        decimal_value(b) == text::digits_value(s),
    decreases s.len(),
{
    if s.len() > 0 {
        assert forall|i: int| 0 <= i < s.drop_last().len() implies text::is_digit(
            #[trigger] s.drop_last()[i],
        ) by {
            assert(text::is_digit(s[i]));
        }
        assert forall|i: int| 0 <= i < s.drop_last().len() implies #[trigger] b.drop_last()[i]
            == s.drop_last()[i] as u8 by {
            assert(b[i] == s[i] as u8);
        }
        lemma_digit_values(s.drop_last(), b.drop_last());
        assert(text::is_digit(s[s.len() - 1]));
        assert(b[s.len() - 1] == s[s.len() - 1] as u8);
    }
}

proof fn lemma_digits(n: nat)
    ensures
        is_decimal(digits(n)),
        decimal_value(digits(n)) == n,
        !digits(n).contains(paths::DOT),
{
    let s = text::decimal(n);
    let b = digits(n);
    text::lemma_decimal(n);
    lemma_digit_bytes(s);
    lemma_digit_values(s, b);
    assert forall|i: int| 0 <= i < b.len() implies 48 <= #[trigger] b[i] <= 57 by {
        assert(text::is_digit(s[i]));
        assert(b[i] == s[i] as u8);
    }
    if b.len() > 1 {
        if n == 0 {
            assert(s.len() == 1);
        } else {
            text::lemma_decimal_start(n);
            assert(text::is_digit(s[0]));
            assert(b[0] == s[0] as u8);
        }
    }
}

/// The parts of a name with further parts behind it.
proof fn lemma_split_joined(name: Seq<u8>, tail: Seq<Seq<u8>>)
    requires
        forall|i: int| 0 <= i < tail.len() ==> !(#[trigger] tail[i]).contains(paths::DOT),
    ensures
        bytes::split(bytes::join(seq![name] + tail, paths::DOT), paths::DOT) == bytes::split(
            name,
            paths::DOT,
        ) + tail,
    decreases tail.len(),
{
    let all = seq![name] + tail;
    let front = bytes::split(name, paths::DOT);
    bytes::lemma_split_len(name, paths::DOT);
    if tail.len() == 0 {
        assert(all =~= seq![name]);
        assert(bytes::join(all, paths::DOT) =~= name);
        assert(front + tail =~= front);
    } else {
        let init = tail.drop_last();
        assert forall|i: int| 0 <= i < init.len() implies !(#[trigger] init[i]).contains(
            paths::DOT,
        ) by {
            assert(init[i] == tail[i]);
        }
        lemma_split_joined(name, init);
        assert(all.drop_last() =~= seq![name] + init);
        let before = bytes::join(seq![name] + init, paths::DOT);
        let open = before.push(paths::DOT);
        assert(open.drop_last() =~= before);
        assert(!tail[tail.len() - 1].contains(paths::DOT));
        bytes::lemma_split_extend(open, tail.last(), paths::DOT);
        let parts = bytes::split(open, paths::DOT);
        assert(parts =~= (front + init).push(Seq::empty()));
        assert(Seq::<u8>::empty() + tail.last() =~= tail.last());
        assert(bytes::split(open + tail.last(), paths::DOT) =~= front + tail);
    }
}

#[verifier::spinoff_prover]
proof fn lemma_marker()
    ensures
        !"cowtree-clone".spec_bytes().contains(paths::DOT),
{
    reveal_strlit("cowtree-clone");
    text::lemma_ascii_bytes("cowtree-clone");
    let s = "cowtree-clone"@;
    let b = "cowtree-clone".spec_bytes();
    assert forall|i: int| 0 <= i < b.len() implies b[i] != paths::DOT by {
        assert(b[i] == s[i] as u8);
    }
}

/// The name of a clone tells the name that it was to replace and the process
/// that made it.
pub proof fn clone_name_tells_origin(name: Seq<u8>, process: u64, sequence: u64, nonce: u128)
    requires
        name.len() > 0,
    ensures
        clone_origin(temporary_name(name, process, sequence, nonce)) == Some((name, process)),
{
    lemma_marker();
    lemma_digits(process as nat);
    lemma_digits(sequence as nat);
    lemma_digits(nonce as nat);
    let tail = seq![
        "cowtree-clone".spec_bytes(),
        digits(process as nat),
        digits(sequence as nat),
        digits(nonce as nat),
    ];
    assert(seq![
        name,
        "cowtree-clone".spec_bytes(),
        digits(process as nat),
        digits(sequence as nat),
        digits(nonce as nat),
    ] =~= seq![name] + tail);
    lemma_split_joined(name, tail);
    let front = bytes::split(name, paths::DOT);
    bytes::lemma_split_len(name, paths::DOT);
    let parts = front + tail;
    let n = parts.len() as int;
    assert(parts.take(n - 4) =~= front);
    bytes::split_then_join(name, paths::DOT);
}

fn decimal_text(part: &Vec<u8>) -> (yes: bool)
    ensures
        yes == is_decimal(part@),
{
    if part.len() == 0 || (part.len() > 1 && part[0] == 48) {
        return false;
    }
    for i in 0..part.len()
        invariant
            forall|j: int| 0 <= j < i ==> 48 <= #[trigger] part@[j] <= 57,
    {
        if part[i] < 48 || part[i] > 57 {
            return false;
        }
    }
    true
}

proof fn lemma_value_grows(s: Seq<u8>, n: int)
    requires
        0 <= n <= s.len(),
        forall|i: int| 0 <= i < s.len() ==> 48 <= #[trigger] s[i] <= 57,
    ensures
        decimal_value(s.take(n)) <= decimal_value(s),
    decreases s.len(),
{
    if n < s.len() {
        lemma_value_grows(s.drop_last(), n);
        assert(s.drop_last().take(n) =~= s.take(n));
    } else {
        assert(s.take(n) =~= s);
    }
}

fn decimal_number(part: &Vec<u8>) -> (value: Option<u64>)
    requires
        is_decimal(part@),
    ensures
        value == (if decimal_value(part@) <= u64::MAX {
            Some(decimal_value(part@) as u64)
        } else {
            None
        }),
{
    let mut value: u64 = 0;
    assert(decimal_value(part@.take(0)) == 0);
    for i in 0..part.len()
        invariant
            is_decimal(part@),
            value == decimal_value(part@.take(i as int)),
    {
        let d: u64 = (part[i] - 48) as u64;
        assert(part@.take(i + 1).drop_last() =~= part@.take(i as int));
        if value > (0xffff_ffff_ffff_ffff - d) / 10 {
            proof {
                lemma_value_grows(part@, i + 1);
            }
            return None;
        }
        value = value * 10 + d;
    }
    assert(part@.take(part@.len() as int) =~= part@);
    Some(value)
}

/// What a clone's name tells.
pub fn origin(name: &[u8]) -> (found: Option<(Vec<u8>, u64)>)
    ensures
        found is Some <==> clone_origin(name@) is Some,
        found matches Some((original, process)) ==> clone_origin(name@) == Some(
            (original@, process),
        ),
{
    let parts = bytes::parts(name, paths::DOT);
    let ghost all = bytes::split(name@, paths::DOT);
    let n: usize = parts.len();
    if n < 5 {
        return None;
    }
    assert(all[n - 4] == parts@[n - 4]@ && all[n - 3] == parts@[n - 3]@);
    assert(all[n - 2] == parts@[n - 2]@ && all[n - 1] == parts@[n - 1]@);
    if !bytes::equal(parts[n - 4].as_slice(), "cowtree-clone".as_bytes()) || !decimal_text(
        &parts[n - 3],
    ) || !decimal_text(&parts[n - 2]) || !decimal_text(&parts[n - 1]) {
        return None;
    }
    let process = match decimal_number(&parts[n - 3]) {
        Some(process) => process,
        None => {
            return None;
        },
    };
    let original = bytes::joined_parts(&parts, n - 4, paths::DOT);
    if original.len() == 0 {
        return None;
    }
    Some((original, process))
}

/// A clone that was left behind: where it is, the file it was to replace, and
/// the process that made it.
#[derive(Debug)]
pub struct StaleClone {
    pub path: Vec<u8>,
    pub original: Vec<u8>,
    pub process: u64,
}

/// What a clone left behind says.
pub struct Leftover {
    pub path: Seq<u8>,
    pub original: Seq<u8>,
    pub process: u64,
}

impl View for StaleClone {
    type V = Leftover;

    open spec fn view(&self) -> Leftover {
        Leftover { path: self.path@, original: self.original@, process: self.process }
    }
}

pub open spec fn leftovers(list: Seq<StaleClone>) -> Seq<Leftover> {
    Seq::new(list.len(), |i: int| list[i]@)
}

/// The clone that a path is, by its name: beside it stands the original.
pub open spec fn leftover(path: Seq<u8>) -> Option<Leftover> {
    let name = bytes::split(path, paths::SLASH).last();
    match clone_origin(name) {
        Some((original, process)) => Some(
            Leftover { path, original: path.take(path.len() - name.len()) + original, process },
        ),
        None => None,
    }
}

/// The untracked paths that are clones of tracked files, by their names.
pub open spec fn candidates(
    known: Set<Seq<Seq<u8>>>,
    unknown: Seq<Seq<u8>>,
) -> Seq<Leftover>
    decreases unknown.len(),
{
    if unknown.len() == 0 {
        Seq::empty()
    } else {
        let rest = candidates(known, unknown.drop_last());
        match leftover(unknown.last()) {
            Some(found) => if known.contains(paths::components(found.original)) {
                rest.push(found)
            } else {
                rest
            },
            None => rest,
        }
    }
}

proof fn lemma_last_part(s: Seq<u8>, sep: u8)
    ensures
        bytes::split(s, sep).len() >= 1,
        bytes::split(s, sep).last().len() <= s.len(),
    decreases s.len(),
{
    bytes::lemma_split_len(s, sep);
    if s.len() > 0 {
        lemma_last_part(s.drop_last(), sep);
    }
}

fn leftover_at(path: &[u8]) -> (found: Option<StaleClone>)
    ensures
        found is Some <==> leftover(path@) is Some,
        found matches Some(clone) ==> leftover(path@) == Some(clone@),
{
    let pieces = bytes::parts(path, paths::SLASH);
    proof {
        lemma_last_part(path@, paths::SLASH);
    }
    let name = &pieces[pieces.len() - 1];
    assert(bytes::split(path@, paths::SLASH).last() == name@);
    match origin(name.as_slice()) {
        Some((beside, process)) => {
            let mut original = bytes::slice(path, 0, path.len() - name.len());
            assert(original@ =~= path@.take(path@.len() - name@.len()));
            bytes::append(&mut original, beside.as_slice());
            Some(StaleClone { path: bytes::copy(path), original, process })
        },
        None => None,
    }
}

/// The untracked paths that may be clones left behind: their names say so, and
/// what they were to replace is tracked.
pub fn stale_candidates(known: &Vec<Vec<u8>>, unknown: &Vec<Vec<u8>>) -> (list: Vec<StaleClone>)
    ensures
        leftovers(list@) == candidates(
            pathmap::listed(bytes::views(known@)),
            bytes::views(unknown@),
        ),
{
    let kept = pathmap::path_set(known);
    let ghost all = bytes::views(unknown@);
    let ghost set = pathmap::listed(bytes::views(known@));
    let mut list: Vec<StaleClone> = Vec::new();
    assert(all.take(0) =~= Seq::<Seq<u8>>::empty());
    assert(leftovers(list@) =~= candidates(set, all.take(0)));
    for i in 0..unknown.len()
        invariant
            all == bytes::views(unknown@),
            kept.wf(),
            kept@.dom() == set,
            leftovers(list@) == candidates(set, all.take(i as int)),
    {
        assert(all.take(i + 1).drop_last() =~= all.take(i as int));
        assert(all.take(i + 1).last() == unknown@[i as int]@);
        if let Some(found) = leftover_at(unknown[i].as_slice()) {
            if kept.contains(found.original.as_slice()) {
                let ghost before = leftovers(list@);
                let ghost one = found@;
                list.push(found);
                assert(leftovers(list@) =~= before.push(one));
            }
        }
    }
    assert(all.take(all.len() as int) =~= all);
    list
}

/// What was found out about a possible leftover.
#[derive(Clone, Copy, Debug, PartialEq, Eq, Structural)]
pub struct Sighting {
    /// The file that it was to replace is there.
    pub original_exists: bool,
    /// The process that made it still runs.
    pub running: bool,
}

/// The leftovers that may be removed: those whose original exists and whose
/// process does not run any more.
pub open spec fn removable(list: Seq<Leftover>, seen: Seq<Sighting>) -> Seq<Seq<u8>>
    decreases list.len(),
{
    if list.len() == 0 {
        Seq::empty()
    } else {
        let rest = removable(list.drop_last(), seen);
        let i = list.len() - 1;
        if i < seen.len() && seen[i].original_exists && !seen[i].running {
            rest.push(list.last().path)
        } else {
            rest
        }
    }
}

/// The clones left behind that are to be removed. `seen` is what was found out
/// about each candidate, in their order; one not looked at stays.
pub fn cleanup_stale_clones(
    known: &Vec<Vec<u8>>,
    unknown: &Vec<Vec<u8>>,
    seen: &Vec<Sighting>,
) -> (paths: Vec<Vec<u8>>)
    ensures
        bytes::views(paths@) == removable(
            candidates(pathmap::listed(bytes::views(known@)), bytes::views(unknown@)),
            seen@,
        ),
{
    let list = stale_candidates(known, unknown);
    let ghost all = leftovers(list@);
    let mut paths: Vec<Vec<u8>> = Vec::new();
    assert(all.take(0) =~= Seq::<Leftover>::empty());
    assert(bytes::views(paths@) =~= removable(all.take(0), seen@));
    for i in 0..list.len()
        invariant
            all == leftovers(list@),
            bytes::views(paths@) == removable(all.take(i as int), seen@),
    {
        assert(all.take(i + 1).drop_last() =~= all.take(i as int));
        assert(all.take(i + 1).last() == list@[i as int]@);
        if i < seen.len() && seen[i].original_exists && !seen[i].running {
            let ghost before = bytes::views(paths@);
            let path = bytes::copy(list[i].path.as_slice());
            let ghost p = path@;
            paths.push(path);
            assert(bytes::views(paths@) =~= before.push(p));
        }
    }
    assert(all.take(all.len() as int) =~= all);
    paths
}

proof fn lemma_candidates(known: Set<Seq<Seq<u8>>>, unknown: Seq<Seq<u8>>)
    ensures
        forall|i: int|
            0 <= i < candidates(known, unknown).len() ==> {
                let found = #[trigger] candidates(known, unknown)[i];
                &&& unknown.contains(found.path)
                &&& leftover(found.path) == Some(found)
                &&& known.contains(paths::components(found.original))
            },
    decreases unknown.len(),
{
    if unknown.len() > 0 {
        let init = unknown.drop_last();
        lemma_candidates(known, init);
        let rest = candidates(known, init);
        let all = candidates(known, unknown);
        assert forall|i: int| 0 <= i < all.len() implies {
            let found = #[trigger] all[i];
            &&& unknown.contains(found.path)
            &&& leftover(found.path) == Some(found)
            &&& known.contains(paths::components(found.original))
        } by {
            if i < rest.len() {
                assert(all[i] == rest[i]);
                let k = choose|k: int| 0 <= k < init.len() && init[k] == rest[i].path;
                assert(unknown[k] == all[i].path);
            } else {
                assert(unknown[unknown.len() - 1] == all[i].path);
            }
        }
    }
}

proof fn lemma_removable(list: Seq<Leftover>, seen: Seq<Sighting>, path: Seq<u8>)
    requires
        removable(list, seen).contains(path),
    ensures
        exists|i: int|
            0 <= i < list.len() && i < seen.len() && (#[trigger] list[i]).path == path
                && seen[i].original_exists && !seen[i].running,
    decreases list.len(),
{
    let all = removable(list, seen);
    let k = choose|k: int| 0 <= k < all.len() && all[k] == path;
    if list.len() > 0 {
        let rest = removable(list.drop_last(), seen);
        if k < rest.len() {
            assert(rest[k] == path);
            assert(rest.contains(path));
            lemma_removable(list.drop_last(), seen, path);
            let i = choose|i: int|
                0 <= i < list.drop_last().len() && i < seen.len() && (#[trigger] list.drop_last()[i]).path
                    == path && seen[i].original_exists && !seen[i].running;
            assert(list[i].path == path);
        } else {
            assert(list[list.len() - 1].path == path);
        }
    }
}

/// Nothing is removed but an untracked path whose name has exactly the form of
/// a clone's, beside a tracked file that exists, and made by a process that
/// does not run any more.
pub proof fn only_leftovers_are_removed(
    known: Set<Seq<Seq<u8>>>,
    unknown: Seq<Seq<u8>>,
    seen: Seq<Sighting>,
    path: Seq<u8>,
)
    requires
        removable(candidates(known, unknown), seen).contains(path),
    ensures
        unknown.contains(path),
        leftover(path) is Some,
        known.contains(paths::components(leftover(path)->0.original)),
        exists|i: int|
            0 <= i < seen.len() && i < candidates(known, unknown).len() && (
            #[trigger] candidates(known, unknown)[i]).path == path && seen[i].original_exists
                && !seen[i].running,
{
    lemma_candidates(known, unknown);
    lemma_removable(candidates(known, unknown), seen, path);
}

/// Each phase has its own place and label.
pub proof fn phases_have_their_labels()
    ensures
        phase_labels().len() == 9,
        phase_labels()[phase_number(ClonePhase::SourceLookup)] == "clone source lookup/open"@,
        phase_labels()[phase_number(ClonePhase::SourceMetadata)] == "clone source metadata/xattrs"@,
        phase_labels()[phase_number(ClonePhase::DonorVerification)] == "donor hashing"@,
        phase_labels()[phase_number(ClonePhase::SourceStability)] == "clone preflight stability"@,
        phase_labels()[phase_number(ClonePhase::TargetLookup)] == "clone target lookup"@,
        phase_labels()[phase_number(ClonePhase::CloneFile)] == "APFS clone syscall"@,
        phase_labels()[phase_number(ClonePhase::DestinationLookup)]
            == "clone destination open/metadata"@,
        phase_labels()[phase_number(ClonePhase::RaceValidation)] == "clone postflight validation"@,
        phase_labels()[phase_number(ClonePhase::MetadataFinalization)]
            == "clone permissions/timestamps"@,
{
}

/// A duration is added to its own phase and to no other. What does not fit in 64
/// bits counts as the most that does.
pub proof fn durations_add_to_their_phase(
    sums: Seq<u64>,
    phase: ClonePhase,
    other: ClonePhase,
    nanoseconds: u128,
)
    requires
        sums.len() == 9,
    ensures
        ({
            let after = recorded(sums, phase, nanoseconds);
            let here = phase_number(phase);
            let added: int = if nanoseconds < 0x1_0000_0000_0000_0000 {
                nanoseconds as int
            } else {
                0xffff_ffff_ffff_ffff
            };
            &&& after.len() == 9
            &&& sums[here] + added < 0x1_0000_0000_0000_0000 ==> after[here] == sums[here] + added
            &&& sums[here] + added >= 0x1_0000_0000_0000_0000 ==> after[here] == sums[here] + added
                - 0x1_0000_0000_0000_0000
            &&& other != phase ==> after[phase_number(other)] == sums[phase_number(other)]
        }),
{
}

/// A mask takes its own bits out of a mode and leaves the others.
pub proof fn masks_take_their_bits(mode: u32, mask: u32)
    ensures
        masked(mode, mask) & mask == 0,
        masked(mode, mask) | (mode & mask) == mode,
{
    assert((mode & !mask) & mask == 0) by (bit_vector);
    assert((mode & !mask) | (mode & mask) == mode) by (bit_vector);
}

/// A clone is named after the file that it is to replace: the file's name, the
/// mark, and three numbers, with dots between.
pub proof fn clones_are_named_after_their_file(
    name: Seq<u8>,
    process: u64,
    sequence: u64,
    nonce: u128,
)
    ensures
        temporary_name(name, process, sequence, nonce) == name + seq![46u8]
            + "cowtree-clone".spec_bytes() + seq![46u8] + encode_utf8(
            text::decimal(process as nat),
        ) + seq![46u8] + encode_utf8(text::decimal(sequence as nat)) + seq![46u8] + encode_utf8(
            text::decimal(nonce as nat),
        ),
{
    let five = seq![
        name,
        "cowtree-clone".spec_bytes(),
        digits(process as nat),
        digits(sequence as nat),
        digits(nonce as nat),
    ];
    reveal_with_fuel(bytes::join, 6);
    let four = five.drop_last();
    let three = four.drop_last();
    let two = three.drop_last();
    let one = two.drop_last();
    assert(one =~= seq![name]);
    assert(bytes::join(five, paths::DOT) =~= name + seq![46u8] + "cowtree-clone".spec_bytes()
        + seq![46u8] + encode_utf8(text::decimal(process as nat)) + seq![46u8] + encode_utf8(
        text::decimal(sequence as nat),
    ) + seq![46u8] + encode_utf8(text::decimal(nonce as nat)));
}

/// Every untracked path whose name is that of a clone beside a tracked file is a
/// candidate, in order; `at` says which these are.
pub proof fn every_leftover_is_a_candidate(
    known: Set<Seq<Seq<u8>>>,
    unknown: Seq<Seq<u8>>,
) -> (at: Seq<int>)
    ensures
        ({
            let list = candidates(known, unknown);
            &&& list.len() == at.len()
            &&& forall|k: int|
                0 <= k < at.len() ==> 0 <= #[trigger] at[k] < unknown.len() && leftover(
                    unknown[at[k]],
                ) == Some(list[k]) && list[k].path == unknown[at[k]]
            &&& forall|a: int, b: int| 0 <= a < b < at.len() ==> at[a] < at[b]
            &&& forall|i: int|
                at.contains(i) <==> 0 <= i < unknown.len() && leftover(unknown[i]) is Some
                    && known.contains(paths::components(leftover(unknown[i])->0.original))
        }),
    decreases unknown.len(),
{
    if unknown.len() == 0 {
        Seq::empty()
    } else {
        let init = unknown.drop_last();
        let n = unknown.len() - 1;
        let before = every_leftover_is_a_candidate(known, init);
        let due = leftover(unknown[n]) is Some && known.contains(
            paths::components(leftover(unknown[n])->0.original),
        );
        let at = if due {
            before.push(n)
        } else {
            before
        };
        assert(unknown.last() == unknown[n]);
        assert forall|k: int| 0 <= k < before.len() implies 0 <= #[trigger] before[k] < n by {
            assert(before.contains(before[k]));
        }
        let list = candidates(known, unknown);
        let less = candidates(known, init);
        assert forall|k: int| 0 <= k < at.len() implies 0 <= #[trigger] at[k] < unknown.len()
            && leftover(unknown[at[k]]) == Some(list[k]) && list[k].path == unknown[at[k]] by {
            if k < before.len() {
                assert(at[k] == before[k]);
                assert(list[k] == less[k]);
                assert(init[before[k]] == unknown[before[k]]);
            }
        }
        assert forall|i: int|
            at.contains(i) <==> 0 <= i < unknown.len() && leftover(unknown[i]) is Some
                && known.contains(paths::components(leftover(unknown[i])->0.original)) by {
            if 0 <= i < n {
                assert(init[i] == unknown[i]);
                if before.contains(i) {
                    let k = choose|k: int| 0 <= k < before.len() && before[k] == i;
                    assert(at[k] == i);
                }
            }
            if at.contains(i) {
                let k = choose|k: int| 0 <= k < at.len() && at[k] == i;
                if k < before.len() {
                    assert(before[k] == i);
                    assert(before.contains(i));
                }
            }
            if i == n && due {
                assert(at[before.len() as int] == n);
            }
        }
        at
    }
}

/// Every candidate is removed whose file is there and whose process does not run
/// any more, and no other.
pub proof fn every_abandoned_leftover_is_removed(list: Seq<Leftover>, seen: Seq<Sighting>, i: int)
    requires
        0 <= i < list.len(),
        i < seen.len(),
        seen[i].original_exists,
        !seen[i].running,
    ensures
        removable(list, seen).contains(list[i].path),
        removable(list, seen).len() <= list.len(),
    decreases list.len(),
{
    let n = list.len() - 1;
    let init = list.drop_last();
    let rest = removable(init, seen);
    let all = removable(list, seen);
    lemma_few_removed(init, seen);
    if i < n {
        every_abandoned_leftover_is_removed(init, seen, i);
        let k = choose|k: int| 0 <= k < rest.len() && rest[k] == list[i].path;
        assert(all[k] == rest[k]);
    } else {
        assert(all[all.len() - 1] == list[i].path);
    }
}

proof fn lemma_few_removed(list: Seq<Leftover>, seen: Seq<Sighting>)
    ensures
        removable(list, seen).len() <= list.len(),
    decreases list.len(),
{
    if list.len() > 0 {
        lemma_few_removed(list.drop_last(), seen);
    }
}

/// A name is a clone's only where it is made of a file's name, the mark and three
/// numbers without leading zeros, with dots between; it tells the file's name and
/// the first number.
pub proof fn clone_names_have_their_form(name: Seq<u8>) -> (numbers: (Seq<u8>, Seq<u8>, Seq<u8>))
    ensures
        clone_origin(name) matches Some((original, process)) ==> {
            &&& original.len() > 0
            &&& name == original + seq![46u8] + "cowtree-clone".spec_bytes() + seq![46u8]
                + numbers.0 + seq![46u8] + numbers.1 + seq![46u8] + numbers.2
            &&& decimal_value(numbers.0) == process
            &&& forall|i: int| 0 <= i < numbers.0.len() ==> 48 <= #[trigger] numbers.0[i] <= 57
            &&& forall|i: int| 0 <= i < numbers.1.len() ==> 48 <= #[trigger] numbers.1[i] <= 57
            &&& forall|i: int| 0 <= i < numbers.2.len() ==> 48 <= #[trigger] numbers.2[i] <= 57
            &&& numbers.0.len() > 0 && numbers.1.len() > 0 && numbers.2.len() > 0
            &&& numbers.0.len() == 1 || numbers.0[0] != 48
            &&& numbers.1.len() == 1 || numbers.1[0] != 48
            &&& numbers.2.len() == 1 || numbers.2[0] != 48
        },
{
    let parts = bytes::split(name, paths::DOT);
    let n = parts.len() as int;
    if clone_origin(name) is Some {
        let original = bytes::join(parts.take(n - 4), paths::DOT);
        bytes::split_then_join(name, paths::DOT);
        let a = parts.take(n - 3);
        let b = parts.take(n - 2);
        let c = parts.take(n - 1);
        assert(parts.drop_last() =~= c);
        assert(c.drop_last() =~= b);
        assert(b.drop_last() =~= a);
        assert(a.drop_last() =~= parts.take(n - 4));
        assert(a.last() == parts[n - 4] && b.last() == parts[n - 3] && c.last() == parts[n - 2]);
        assert(bytes::join(a, paths::DOT) =~= original + seq![46u8]
            + "cowtree-clone".spec_bytes());
        assert(bytes::join(b, paths::DOT) =~= bytes::join(a, paths::DOT) + seq![46u8] + parts[n
            - 3]);
        assert(bytes::join(c, paths::DOT) =~= bytes::join(b, paths::DOT) + seq![46u8] + parts[n
            - 2]);
        assert(name =~= bytes::join(c, paths::DOT) + seq![46u8] + parts[n - 1]);
        (parts[n - 3], parts[n - 2], parts[n - 1])
    } else {
        (Seq::empty(), Seq::empty(), Seq::empty())
    }
}

} // verus!
