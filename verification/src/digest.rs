//! Hashes of byte strings and their hexadecimal text.
use crate::text;
use vstd::prelude::*;
use vstd::string::*;

verus! {

/// The SHA-256 digest of `data`, as `sha2` computes it.
pub uninterp spec fn sha256(data: Seq<u8>) -> Seq<u8>;

/// The SHA-1 digest of `data`, as `sha1` computes it.
pub uninterp spec fn sha1(data: Seq<u8>) -> Seq<u8>;

/// `sha2::Sha256::digest`: the digest is a function of the data, of 32 bytes.
#[verifier::external_body]
pub(crate) fn sha256_digest(data: &[u8]) -> (digest: Vec<u8>)
    ensures
        digest@ == sha256(data@),
        digest@.len() == 32,
{
    <sha2::Sha256 as sha2::Digest>::digest(data).to_vec()
}

/// `sha1::Sha1::digest`: the digest is a function of the data, of 20 bytes.
#[verifier::external_body]
pub(crate) fn sha1_digest(data: &[u8]) -> (digest: Vec<u8>)
    ensures
        digest@ == sha1(data@),
        digest@.len() == 20,
{
    <sha1::Sha1 as sha1::Digest>::digest(data).to_vec()
}

pub open spec fn hex_digit(n: int) -> char {
    if n < 10 {
        (48 + n) as char
    } else {
        (87 + n) as char
    }
}

/// The bytes as lower-case hexadecimal, two digits each.
pub open spec fn hex(data: Seq<u8>) -> Seq<char>
    decreases data.len(),
{
    if data.len() == 0 {
        Seq::empty()
    } else {
        hex(data.drop_last()).push(hex_digit(data.last() as int / 16)).push(
            hex_digit(data.last() as int % 16),
        )
    }
}

fn hex_char(n: u8) -> (c: char)
    requires
        n < 16,
    ensures
        c == hex_digit(n as int),
{
    if n < 10 {
        (48 + n) as char
    } else {
        (87 + n) as char
    }
}

/// The hexadecimal text of `data`.
pub fn hex_text(data: &[u8]) -> (result: String)
    ensures
        result@ == hex(data@),
{
    let mut result = String::new();
    assert(data@.take(0) =~= Seq::<u8>::empty());
    for i in 0..data.len()
        invariant
            result@ == hex(data@.take(i as int)),
    {
        assert(data@.take(i + 1).drop_last() =~= data@.take(i as int));
        result.push(hex_char(data[i] / 16));
        result.push(hex_char(data[i] % 16));
    }
    assert(data@.take(data@.len() as int) =~= data@);
    result
}

/// Whether `digest` is the one that `oid` writes out.
pub fn names_digest(digest: &[u8], oid: &str) -> (yes: bool)
    ensures
        yes == (hex(digest@) == oid@),
{
    let shown = hex_text(digest);
    text::same(shown.as_str(), oid)
}

/// The label of a SHA-256 digest.
pub fn digest_label(digest: &[u8]) -> (label: String)
    ensures
        label@ == "sha256:"@ + hex(digest@),
{
    let mut label = "sha256:".to_owned();
    let shown = hex_text(digest);
    label.append(shown.as_str());
    label
}

/// Each byte is written as two digits, the high one first, with the letters `a`
/// to `f` behind the digits.
pub proof fn bytes_are_two_digits(data: Seq<u8>, i: int)
    requires
        0 <= i < data.len(),
    ensures
        hex(data).len() == 2 * data.len(),
        hex(data)[2 * i] as int == (if data[i] / 16 < 10 {
            48 + data[i] / 16
        } else {
            87 + data[i] / 16
        }),
        hex(data)[2 * i + 1] as int == (if data[i] % 16 < 10 {
            48 + data[i] % 16
        } else {
            87 + data[i] % 16
        }),
    decreases data.len(),
{
    let init = data.drop_last();
    if init.len() > 0 {
        bytes_are_two_digits(
            init,
            if i < init.len() {
                i
            } else {
                0
            },
        );
    }
    let d = data[i];
    if i < init.len() {
        assert(init[i] == data[i]);
        assert(hex(data)[2 * i] == hex(init)[2 * i]);
        assert(hex(data)[2 * i + 1] == hex(init)[2 * i + 1]);
    } else {
        assert(hex(init).len() == 2 * init.len());
        assert(0 <= d as int / 16 < 16 && 0 <= d as int % 16 < 16);
        assert(hex(data)[2 * i] == hex_digit(d as int / 16));
        assert(hex(data)[2 * i + 1] == hex_digit(d as int % 16));
    }
}

} // verus!
