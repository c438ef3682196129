//! What the arguments of `worktree add` mean, each for itself and whatever
//! stands before it.
use crate::add;
use crate::add::{Add, Parsed, Scan, Step};
use crate::bytes;
use crate::error::{Error, Failure};
use crate::text;
use vstd::prelude::*;
use vstd::string::*;

verus! {

/// The arguments are read to their end, and come to this.
pub open spec fn reads_as(args: Seq<Seq<u8>>, scan: Scan) -> bool {
    add::scan_from(args, 0, add::start()) == Parsed::Scanned(scan)
}

/// The arguments are left to Git.
pub open spec fn is_delegated(args: Seq<Seq<u8>>) -> bool {
    add::scan_from(args, 0, add::start()) is Delegate
}

/// The arguments are refused with this message.
pub open spec fn is_refused(args: Seq<Seq<u8>>, message: Seq<char>) -> bool {
    add::scan_from(args, 0, add::start()) == Parsed::Refused(Failure::Message(message))
}

proof fn lemma_read_prefix(args: Seq<Seq<u8>>, n: int, at: int, scan: Scan, s: Scan)
    requires
        0 <= at <= n <= args.len(),
        add::scan_from(args.take(n), at, scan) == Parsed::Scanned(s),
    ensures
        add::scan_from(args, at, scan) == add::scan_from(args, n, s),
    decreases n - at,
{
    let part = args.take(n);
    if at < n {
        assert(part[at] == args[at]);
        match add::step(part[at], at, scan) {
            Step::Next(after) => lemma_read_prefix(args, n, at + 1, after, s),
            Step::Value(after) => lemma_read_prefix(args, n, at + 2, after, s),
            _ => {},
        }
    }
}

/// Reading goes on behind what was read.
proof fn lemma_read_on(before: Seq<Seq<u8>>, rest: Seq<Seq<u8>>, s: Scan)
    requires
        reads_as(before, s),
    ensures
        add::scan_from(before + rest, 0, add::start()) == add::scan_from(
            before + rest,
            before.len() as int,
            s,
        ),
{
    assert((before + rest).take(before.len() as int) =~= before);
    lemma_read_prefix(before + rest, before.len() as int, 0, add::start(), s);
}

/// Reading one more argument.
proof fn lemma_read_one(before: Seq<Seq<u8>>, arg: Seq<u8>, s: Scan)
    requires
        reads_as(before, s),
    ensures
        add::scan_from(before.push(arg), 0, add::start()) == (match add::step(
            arg,
            before.len() as int,
            s,
        ) {
            Step::Next(after) => Parsed::Scanned(after),
            Step::Value(_) => Parsed::Delegate,
            Step::Delegate => Parsed::Delegate,
            Step::Refuse(failure) => Parsed::Refused(failure),
        }),
{
    let all = before.push(arg);
    assert(before + seq![arg] =~= all);
    lemma_read_on(before, seq![arg], s);
    assert(all[before.len() as int] == arg);
    if let Step::Next(after) = add::step(arg, before.len() as int, s) {
        assert(add::scan_from(all, before.len() as int + 1, after) == Parsed::Scanned(after));
    }
}

/// Reading one more argument and its value.
proof fn lemma_read_value(before: Seq<Seq<u8>>, arg: Seq<u8>, value: Seq<u8>, s: Scan, after: Scan)
    requires
        reads_as(before, s),
        add::step(arg, before.len() as int, s) == Step::Value(after),
    ensures
        reads_as(before.push(arg).push(value), after),
{
    let all = before.push(arg).push(value);
    assert(before + seq![arg, value] =~= all);
    lemma_read_on(before, seq![arg, value], s);
    assert(all[before.len() as int] == arg);
    assert(add::scan_from(all, before.len() as int + 2, after) == Parsed::Scanned(after));
}

/// What tells the options from one another.
#[verifier::spinoff_prover]
proof fn lemma_texts()
    ensures
        "--help".spec_bytes().len() == 6,
        "--help".spec_bytes()[0] == 45,
        "--help".spec_bytes()[1] == 45,
        "--help".spec_bytes()[2] == 104,
        "--help".spec_bytes()[5] == 112,
        "--checkout".spec_bytes().len() == 10,
        "--checkout".spec_bytes()[0] == 45,
        "--checkout".spec_bytes()[1] == 45,
        "--checkout".spec_bytes()[2] == 99,
        "--checkout".spec_bytes()[5] == 99,
        "--checkout".spec_bytes()[8] == 117,
        "--no-checkout".spec_bytes().len() == 13,
        "--no-checkout".spec_bytes()[0] == 45,
        "--no-checkout".spec_bytes()[1] == 45,
        "--no-checkout".spec_bytes()[2] == 110,
        "--no-checkout".spec_bytes()[5] == 99,
        "--no-checkout".spec_bytes()[8] == 99,
        "--orphan".spec_bytes().len() == 8,
        "--orphan".spec_bytes()[0] == 45,
        "--orphan".spec_bytes()[1] == 45,
        "--orphan".spec_bytes()[2] == 111,
        "--orphan".spec_bytes()[5] == 104,
        "--no-orphan".spec_bytes().len() == 11,
        "--no-orphan".spec_bytes()[0] == 45,
        "--no-orphan".spec_bytes()[1] == 45,
        "--no-orphan".spec_bytes()[2] == 110,
        "--no-orphan".spec_bytes()[5] == 111,
        "--no-orphan".spec_bytes()[8] == 104,
        "--lock".spec_bytes().len() == 6,
        "--lock".spec_bytes()[0] == 45,
        "--lock".spec_bytes()[1] == 45,
        "--lock".spec_bytes()[2] == 108,
        "--lock".spec_bytes()[5] == 107,
        "--no-lock".spec_bytes().len() == 9,
        "--no-lock".spec_bytes()[0] == 45,
        "--no-lock".spec_bytes()[1] == 45,
        "--no-lock".spec_bytes()[2] == 110,
        "--no-lock".spec_bytes()[5] == 108,
        "--no-lock".spec_bytes()[8] == 107,
        "--reason".spec_bytes().len() == 8,
        "--reason".spec_bytes()[0] == 45,
        "--reason".spec_bytes()[1] == 45,
        "--reason".spec_bytes()[2] == 114,
        "--reason".spec_bytes()[5] == 115,
        "--no-reason".spec_bytes().len() == 11,
        "--no-reason".spec_bytes()[0] == 45,
        "--no-reason".spec_bytes()[1] == 45,
        "--no-reason".spec_bytes()[2] == 110,
        "--no-reason".spec_bytes()[5] == 114,
        "--no-reason".spec_bytes()[8] == 115,
        "--quiet".spec_bytes().len() == 7,
        "--quiet".spec_bytes()[0] == 45,
        "--quiet".spec_bytes()[1] == 45,
        "--quiet".spec_bytes()[2] == 113,
        "--quiet".spec_bytes()[5] == 101,
        "--no-quiet".spec_bytes().len() == 10,
        "--no-quiet".spec_bytes()[0] == 45,
        "--no-quiet".spec_bytes()[1] == 45,
        "--no-quiet".spec_bytes()[2] == 110,
        "--no-quiet".spec_bytes()[5] == 113,
        "--no-quiet".spec_bytes()[8] == 101,
        "--detach".spec_bytes().len() == 8,
        "--detach".spec_bytes()[0] == 45,
        "--detach".spec_bytes()[1] == 45,
        "--detach".spec_bytes()[2] == 100,
        "--detach".spec_bytes()[5] == 97,
        "--no-detach".spec_bytes().len() == 11,
        "--no-detach".spec_bytes()[0] == 45,
        "--no-detach".spec_bytes()[1] == 45,
        "--no-detach".spec_bytes()[2] == 110,
        "--no-detach".spec_bytes()[5] == 100,
        "--no-detach".spec_bytes()[8] == 97,
        "--force".spec_bytes().len() == 7,
        "--force".spec_bytes()[0] == 45,
        "--force".spec_bytes()[1] == 45,
        "--force".spec_bytes()[2] == 102,
        "--force".spec_bytes()[5] == 99,
        "--no-force".spec_bytes().len() == 10,
        "--no-force".spec_bytes()[0] == 45,
        "--no-force".spec_bytes()[1] == 45,
        "--no-force".spec_bytes()[2] == 110,
        "--no-force".spec_bytes()[5] == 102,
        "--no-force".spec_bytes()[8] == 99,
        "--track".spec_bytes().len() == 7,
        "--track".spec_bytes()[0] == 45,
        "--track".spec_bytes()[1] == 45,
        "--track".spec_bytes()[2] == 116,
        "--track".spec_bytes()[5] == 99,
        "--no-track".spec_bytes().len() == 10,
        "--no-track".spec_bytes()[0] == 45,
        "--no-track".spec_bytes()[1] == 45,
        "--no-track".spec_bytes()[2] == 110,
        "--no-track".spec_bytes()[5] == 116,
        "--no-track".spec_bytes()[8] == 99,
        "--guess-remote".spec_bytes().len() == 14,
        "--guess-remote".spec_bytes()[0] == 45,
        "--guess-remote".spec_bytes()[1] == 45,
        "--guess-remote".spec_bytes()[2] == 103,
        "--guess-remote".spec_bytes()[5] == 115,
        "--guess-remote".spec_bytes()[8] == 114,
        "--no-guess-remote".spec_bytes().len() == 17,
        "--no-guess-remote".spec_bytes()[0] == 45,
        "--no-guess-remote".spec_bytes()[1] == 45,
        "--no-guess-remote".spec_bytes()[2] == 110,
        "--no-guess-remote".spec_bytes()[5] == 103,
        "--no-guess-remote".spec_bytes()[8] == 115,
        "-".spec_bytes().len() == 1,
        "-".spec_bytes()[0] == 45,
        "--".spec_bytes().len() == 2,
        "--".spec_bytes()[0] == 45,
        "--".spec_bytes()[1] == 45,
        "-h".spec_bytes().len() == 2,
        "-h".spec_bytes()[0] == 45,
        "-h".spec_bytes()[1] == 104,
        "-b".spec_bytes().len() == 2,
        "-b".spec_bytes()[0] == 45,
        "-b".spec_bytes()[1] == 98,
        "-B".spec_bytes().len() == 2,
        "-B".spec_bytes()[0] == 45,
        "-B".spec_bytes()[1] == 66,
        "--reason=".spec_bytes().len() == 9,
        "--reason=".spec_bytes()[0] == 45,
        "--reason=".spec_bytes()[1] == 45,
        "--reason=".spec_bytes()[2] == 114,
        "--reason=".spec_bytes()[5] == 115,
        "--reason=".spec_bytes()[8] == 61,
        "--track=".spec_bytes().len() == 8,
        "--track=".spec_bytes()[0] == 45,
        "--track=".spec_bytes()[1] == 45,
        "--track=".spec_bytes()[2] == 116,
        "--track=".spec_bytes()[5] == 99,
{
    reveal_strlit("--help");
    text::lemma_ascii_bytes("--help");
    reveal_strlit("--checkout");
    text::lemma_ascii_bytes("--checkout");
    reveal_strlit("--no-checkout");
    text::lemma_ascii_bytes("--no-checkout");
    reveal_strlit("--orphan");
    text::lemma_ascii_bytes("--orphan");
    reveal_strlit("--no-orphan");
    text::lemma_ascii_bytes("--no-orphan");
    reveal_strlit("--lock");
    text::lemma_ascii_bytes("--lock");
    reveal_strlit("--no-lock");
    text::lemma_ascii_bytes("--no-lock");
    reveal_strlit("--reason");
    text::lemma_ascii_bytes("--reason");
    reveal_strlit("--no-reason");
    text::lemma_ascii_bytes("--no-reason");
    reveal_strlit("--quiet");
    text::lemma_ascii_bytes("--quiet");
    reveal_strlit("--no-quiet");
    text::lemma_ascii_bytes("--no-quiet");
    reveal_strlit("--detach");
    text::lemma_ascii_bytes("--detach");
    reveal_strlit("--no-detach");
    text::lemma_ascii_bytes("--no-detach");
    reveal_strlit("--force");
    text::lemma_ascii_bytes("--force");
    reveal_strlit("--no-force");
    text::lemma_ascii_bytes("--no-force");
    reveal_strlit("--track");
    text::lemma_ascii_bytes("--track");
    reveal_strlit("--no-track");
    text::lemma_ascii_bytes("--no-track");
    reveal_strlit("--guess-remote");
    text::lemma_ascii_bytes("--guess-remote");
    reveal_strlit("--no-guess-remote");
    text::lemma_ascii_bytes("--no-guess-remote");
    reveal_strlit("-");
    text::lemma_ascii_bytes("-");
    reveal_strlit("--");
    text::lemma_ascii_bytes("--");
    reveal_strlit("-h");
    text::lemma_ascii_bytes("-h");
    reveal_strlit("-b");
    text::lemma_ascii_bytes("-b");
    reveal_strlit("-B");
    text::lemma_ascii_bytes("-B");
    reveal_strlit("--reason=");
    text::lemma_ascii_bytes("--reason=");
    reveal_strlit("--track=");
    text::lemma_ascii_bytes("--track=");
}

/// An option without `=` is written out in full.
proof fn lemma_full_name(option: Seq<u8>)
    requires
        add::long_options().contains(option),
        !option.contains(61u8),
        option.len() > 2,
        option[0] == 45,
        option[1] == 45,
    ensures
        add::normalized(option) == Some(option),
        bytes::has_prefix(option, "--".spec_bytes()),
        bytes::has_prefix(option, "-".spec_bytes()),
{
    bytes::lemma_index_of(option, 61);
    if bytes::index_of(option, 61u8) < option.len() {
        assert(option.contains(option[bytes::index_of(option, 61u8)]));
    }
    assert(option.take(option.len() as int) =~= option);
    assert(option + option.skip(option.len() as int) =~= option);
    lemma_dashes(option);
}

proof fn lemma_dashes(option: Seq<u8>)
    requires
        option.len() >= 2,
        option[0] == 45,
        option[1] == 45,
    ensures
        bytes::has_prefix(option, "--".spec_bytes()),
        bytes::has_prefix(option, "-".spec_bytes()),
{
    reveal_strlit("-");
    reveal_strlit("--");
    text::lemma_ascii_bytes("-");
    text::lemma_ascii_bytes("--");
    assert(option.take(1) =~= "-".spec_bytes());
    assert(option.take(2) =~= "--".spec_bytes());
}

/// Every option is listed.
proof fn lemma_listed()
    ensures
        add::long_options().contains("--help".spec_bytes()),
        add::long_options().contains("--checkout".spec_bytes()),
        add::long_options().contains("--no-checkout".spec_bytes()),
        add::long_options().contains("--orphan".spec_bytes()),
        add::long_options().contains("--no-orphan".spec_bytes()),
        add::long_options().contains("--lock".spec_bytes()),
        add::long_options().contains("--no-lock".spec_bytes()),
        add::long_options().contains("--reason".spec_bytes()),
        add::long_options().contains("--no-reason".spec_bytes()),
        add::long_options().contains("--quiet".spec_bytes()),
        add::long_options().contains("--no-quiet".spec_bytes()),
        add::long_options().contains("--detach".spec_bytes()),
        add::long_options().contains("--no-detach".spec_bytes()),
        add::long_options().contains("--force".spec_bytes()),
        add::long_options().contains("--no-force".spec_bytes()),
        add::long_options().contains("--track".spec_bytes()),
        add::long_options().contains("--no-track".spec_bytes()),
        add::long_options().contains("--guess-remote".spec_bytes()),
        add::long_options().contains("--no-guess-remote".spec_bytes()),
{
    let all = add::long_options();
    assert(all[0] == "--help".spec_bytes());
    assert(all[1] == "--checkout".spec_bytes());
    assert(all[2] == "--no-checkout".spec_bytes());
    assert(all[3] == "--orphan".spec_bytes());
    assert(all[4] == "--no-orphan".spec_bytes());
    assert(all[5] == "--lock".spec_bytes());
    assert(all[6] == "--no-lock".spec_bytes());
    assert(all[7] == "--reason".spec_bytes());
    assert(all[8] == "--no-reason".spec_bytes());
    assert(all[9] == "--quiet".spec_bytes());
    assert(all[10] == "--no-quiet".spec_bytes());
    assert(all[11] == "--detach".spec_bytes());
    assert(all[12] == "--no-detach".spec_bytes());
    assert(all[13] == "--force".spec_bytes());
    assert(all[14] == "--no-force".spec_bytes());
    assert(all[15] == "--track".spec_bytes());
    assert(all[16] == "--no-track".spec_bytes());
    assert(all[17] == "--guess-remote".spec_bytes());
    assert(all[18] == "--no-guess-remote".spec_bytes());
}

#[verifier::spinoff_prover]
proof fn lemma_letters_help()
    ensures
        "--help".spec_bytes().len() > 2,
        "--help".spec_bytes()[0] == 45,
        "--help".spec_bytes()[1] == 45,
        !"--help".spec_bytes().contains(61u8),
{
    reveal_strlit("--help");
    text::lemma_ascii_bytes("--help");
    let b = "--help".spec_bytes();
    assert(!b.contains(61u8)) by {
        assert forall|i: int| 0 <= i < b.len() implies b[i] != 61 by {}
    }
}

proof fn lemma_name_help()
    ensures
        add::normalized("--help".spec_bytes()) == Some("--help".spec_bytes()),
        bytes::has_prefix("--help".spec_bytes(), "--".spec_bytes()),
        bytes::has_prefix("--help".spec_bytes(), "-".spec_bytes()),
        !"--help".spec_bytes().contains(61u8),
        add::long_options().contains("--help".spec_bytes()),
{
    lemma_letters_help();
    lemma_listed();
    lemma_full_name("--help".spec_bytes());
}

#[verifier::spinoff_prover]
proof fn lemma_letters_checkout()
    ensures
        "--checkout".spec_bytes().len() > 2,
        "--checkout".spec_bytes()[0] == 45,
        "--checkout".spec_bytes()[1] == 45,
        !"--checkout".spec_bytes().contains(61u8),
{
    reveal_strlit("--checkout");
    text::lemma_ascii_bytes("--checkout");
    let b = "--checkout".spec_bytes();
    assert(!b.contains(61u8)) by {
        assert forall|i: int| 0 <= i < b.len() implies b[i] != 61 by {}
    }
}

proof fn lemma_name_checkout()
    ensures
        add::normalized("--checkout".spec_bytes()) == Some("--checkout".spec_bytes()),
        bytes::has_prefix("--checkout".spec_bytes(), "--".spec_bytes()),
        bytes::has_prefix("--checkout".spec_bytes(), "-".spec_bytes()),
        !"--checkout".spec_bytes().contains(61u8),
        add::long_options().contains("--checkout".spec_bytes()),
{
    lemma_letters_checkout();
    lemma_listed();
    lemma_full_name("--checkout".spec_bytes());
}

#[verifier::spinoff_prover]
proof fn lemma_letters_no_checkout()
    ensures
        "--no-checkout".spec_bytes().len() > 2,
        "--no-checkout".spec_bytes()[0] == 45,
        "--no-checkout".spec_bytes()[1] == 45,
        !"--no-checkout".spec_bytes().contains(61u8),
{
    reveal_strlit("--no-checkout");
    text::lemma_ascii_bytes("--no-checkout");
    let b = "--no-checkout".spec_bytes();
    assert(!b.contains(61u8)) by {
        assert forall|i: int| 0 <= i < b.len() implies b[i] != 61 by {}
    }
}

proof fn lemma_name_no_checkout()
    ensures
        add::normalized("--no-checkout".spec_bytes()) == Some("--no-checkout".spec_bytes()),
        bytes::has_prefix("--no-checkout".spec_bytes(), "--".spec_bytes()),
        bytes::has_prefix("--no-checkout".spec_bytes(), "-".spec_bytes()),
        !"--no-checkout".spec_bytes().contains(61u8),
        add::long_options().contains("--no-checkout".spec_bytes()),
{
    lemma_letters_no_checkout();
    lemma_listed();
    lemma_full_name("--no-checkout".spec_bytes());
}

#[verifier::spinoff_prover]
proof fn lemma_letters_orphan()
    ensures
        "--orphan".spec_bytes().len() > 2,
        "--orphan".spec_bytes()[0] == 45,
        "--orphan".spec_bytes()[1] == 45,
        !"--orphan".spec_bytes().contains(61u8),
{
    reveal_strlit("--orphan");
    text::lemma_ascii_bytes("--orphan");
    let b = "--orphan".spec_bytes();
    assert(!b.contains(61u8)) by {
        assert forall|i: int| 0 <= i < b.len() implies b[i] != 61 by {}
    }
}

proof fn lemma_name_orphan()
    ensures
        add::normalized("--orphan".spec_bytes()) == Some("--orphan".spec_bytes()),
        bytes::has_prefix("--orphan".spec_bytes(), "--".spec_bytes()),
        bytes::has_prefix("--orphan".spec_bytes(), "-".spec_bytes()),
        !"--orphan".spec_bytes().contains(61u8),
        add::long_options().contains("--orphan".spec_bytes()),
{
    lemma_letters_orphan();
    lemma_listed();
    lemma_full_name("--orphan".spec_bytes());
}

#[verifier::spinoff_prover]
proof fn lemma_letters_no_orphan()
    ensures
        "--no-orphan".spec_bytes().len() > 2,
        "--no-orphan".spec_bytes()[0] == 45,
        "--no-orphan".spec_bytes()[1] == 45,
        !"--no-orphan".spec_bytes().contains(61u8),
{
    reveal_strlit("--no-orphan");
    text::lemma_ascii_bytes("--no-orphan");
    let b = "--no-orphan".spec_bytes();
    assert(!b.contains(61u8)) by {
        assert forall|i: int| 0 <= i < b.len() implies b[i] != 61 by {}
    }
}

proof fn lemma_name_no_orphan()
    ensures
        add::normalized("--no-orphan".spec_bytes()) == Some("--no-orphan".spec_bytes()),
        bytes::has_prefix("--no-orphan".spec_bytes(), "--".spec_bytes()),
        bytes::has_prefix("--no-orphan".spec_bytes(), "-".spec_bytes()),
        !"--no-orphan".spec_bytes().contains(61u8),
        add::long_options().contains("--no-orphan".spec_bytes()),
{
    lemma_letters_no_orphan();
    lemma_listed();
    lemma_full_name("--no-orphan".spec_bytes());
}

#[verifier::spinoff_prover]
proof fn lemma_letters_lock()
    ensures
        "--lock".spec_bytes().len() > 2,
        "--lock".spec_bytes()[0] == 45,
        "--lock".spec_bytes()[1] == 45,
        !"--lock".spec_bytes().contains(61u8),
{
    reveal_strlit("--lock");
    text::lemma_ascii_bytes("--lock");
    let b = "--lock".spec_bytes();
    assert(!b.contains(61u8)) by {
        assert forall|i: int| 0 <= i < b.len() implies b[i] != 61 by {}
    }
}

proof fn lemma_name_lock()
    ensures
        add::normalized("--lock".spec_bytes()) == Some("--lock".spec_bytes()),
        bytes::has_prefix("--lock".spec_bytes(), "--".spec_bytes()),
        bytes::has_prefix("--lock".spec_bytes(), "-".spec_bytes()),
        !"--lock".spec_bytes().contains(61u8),
        add::long_options().contains("--lock".spec_bytes()),
{
    lemma_letters_lock();
    lemma_listed();
    lemma_full_name("--lock".spec_bytes());
}

#[verifier::spinoff_prover]
proof fn lemma_letters_no_lock()
    ensures
        "--no-lock".spec_bytes().len() > 2,
        "--no-lock".spec_bytes()[0] == 45,
        "--no-lock".spec_bytes()[1] == 45,
        !"--no-lock".spec_bytes().contains(61u8),
{
    reveal_strlit("--no-lock");
    text::lemma_ascii_bytes("--no-lock");
    let b = "--no-lock".spec_bytes();
    assert(!b.contains(61u8)) by {
        assert forall|i: int| 0 <= i < b.len() implies b[i] != 61 by {}
    }
}

proof fn lemma_name_no_lock()
    ensures
        add::normalized("--no-lock".spec_bytes()) == Some("--no-lock".spec_bytes()),
        bytes::has_prefix("--no-lock".spec_bytes(), "--".spec_bytes()),
        bytes::has_prefix("--no-lock".spec_bytes(), "-".spec_bytes()),
        !"--no-lock".spec_bytes().contains(61u8),
        add::long_options().contains("--no-lock".spec_bytes()),
{
    lemma_letters_no_lock();
    lemma_listed();
    lemma_full_name("--no-lock".spec_bytes());
}

#[verifier::spinoff_prover]
proof fn lemma_letters_reason()
    ensures
        "--reason".spec_bytes().len() > 2,
        "--reason".spec_bytes()[0] == 45,
        "--reason".spec_bytes()[1] == 45,
        !"--reason".spec_bytes().contains(61u8),
{
    reveal_strlit("--reason");
    text::lemma_ascii_bytes("--reason");
    let b = "--reason".spec_bytes();
    assert(!b.contains(61u8)) by {
        assert forall|i: int| 0 <= i < b.len() implies b[i] != 61 by {}
    }
}

proof fn lemma_name_reason()
    ensures
        add::normalized("--reason".spec_bytes()) == Some("--reason".spec_bytes()),
        bytes::has_prefix("--reason".spec_bytes(), "--".spec_bytes()),
        bytes::has_prefix("--reason".spec_bytes(), "-".spec_bytes()),
        !"--reason".spec_bytes().contains(61u8),
        add::long_options().contains("--reason".spec_bytes()),
{
    lemma_letters_reason();
    lemma_listed();
    lemma_full_name("--reason".spec_bytes());
}

#[verifier::spinoff_prover]
proof fn lemma_letters_no_reason()
    ensures
        "--no-reason".spec_bytes().len() > 2,
        "--no-reason".spec_bytes()[0] == 45,
        "--no-reason".spec_bytes()[1] == 45,
        !"--no-reason".spec_bytes().contains(61u8),
{
    reveal_strlit("--no-reason");
    text::lemma_ascii_bytes("--no-reason");
    let b = "--no-reason".spec_bytes();
    assert(!b.contains(61u8)) by {
        assert forall|i: int| 0 <= i < b.len() implies b[i] != 61 by {}
    }
}

proof fn lemma_name_no_reason()
    ensures
        add::normalized("--no-reason".spec_bytes()) == Some("--no-reason".spec_bytes()),
        bytes::has_prefix("--no-reason".spec_bytes(), "--".spec_bytes()),
        bytes::has_prefix("--no-reason".spec_bytes(), "-".spec_bytes()),
        !"--no-reason".spec_bytes().contains(61u8),
        add::long_options().contains("--no-reason".spec_bytes()),
{
    lemma_letters_no_reason();
    lemma_listed();
    lemma_full_name("--no-reason".spec_bytes());
}

#[verifier::spinoff_prover]
proof fn lemma_letters_quiet()
    ensures
        "--quiet".spec_bytes().len() > 2,
        "--quiet".spec_bytes()[0] == 45,
        "--quiet".spec_bytes()[1] == 45,
        !"--quiet".spec_bytes().contains(61u8),
{
    reveal_strlit("--quiet");
    text::lemma_ascii_bytes("--quiet");
    let b = "--quiet".spec_bytes();
    assert(!b.contains(61u8)) by {
        assert forall|i: int| 0 <= i < b.len() implies b[i] != 61 by {}
    }
}

proof fn lemma_name_quiet()
    ensures
        add::normalized("--quiet".spec_bytes()) == Some("--quiet".spec_bytes()),
        bytes::has_prefix("--quiet".spec_bytes(), "--".spec_bytes()),
        bytes::has_prefix("--quiet".spec_bytes(), "-".spec_bytes()),
        !"--quiet".spec_bytes().contains(61u8),
        add::long_options().contains("--quiet".spec_bytes()),
{
    lemma_letters_quiet();
    lemma_listed();
    lemma_full_name("--quiet".spec_bytes());
}

#[verifier::spinoff_prover]
proof fn lemma_letters_no_quiet()
    ensures
        "--no-quiet".spec_bytes().len() > 2,
        "--no-quiet".spec_bytes()[0] == 45,
        "--no-quiet".spec_bytes()[1] == 45,
        !"--no-quiet".spec_bytes().contains(61u8),
{
    reveal_strlit("--no-quiet");
    text::lemma_ascii_bytes("--no-quiet");
    let b = "--no-quiet".spec_bytes();
    assert(!b.contains(61u8)) by {
        assert forall|i: int| 0 <= i < b.len() implies b[i] != 61 by {}
    }
}

proof fn lemma_name_no_quiet()
    ensures
        add::normalized("--no-quiet".spec_bytes()) == Some("--no-quiet".spec_bytes()),
        bytes::has_prefix("--no-quiet".spec_bytes(), "--".spec_bytes()),
        bytes::has_prefix("--no-quiet".spec_bytes(), "-".spec_bytes()),
        !"--no-quiet".spec_bytes().contains(61u8),
        add::long_options().contains("--no-quiet".spec_bytes()),
{
    lemma_letters_no_quiet();
    lemma_listed();
    lemma_full_name("--no-quiet".spec_bytes());
}

#[verifier::spinoff_prover]
proof fn lemma_letters_detach()
    ensures
        "--detach".spec_bytes().len() > 2,
        "--detach".spec_bytes()[0] == 45,
        "--detach".spec_bytes()[1] == 45,
        !"--detach".spec_bytes().contains(61u8),
{
    reveal_strlit("--detach");
    text::lemma_ascii_bytes("--detach");
    let b = "--detach".spec_bytes();
    assert(!b.contains(61u8)) by {
        assert forall|i: int| 0 <= i < b.len() implies b[i] != 61 by {}
    }
}

proof fn lemma_name_detach()
    ensures
        add::normalized("--detach".spec_bytes()) == Some("--detach".spec_bytes()),
        bytes::has_prefix("--detach".spec_bytes(), "--".spec_bytes()),
        bytes::has_prefix("--detach".spec_bytes(), "-".spec_bytes()),
        !"--detach".spec_bytes().contains(61u8),
        add::long_options().contains("--detach".spec_bytes()),
{
    lemma_letters_detach();
    lemma_listed();
    lemma_full_name("--detach".spec_bytes());
}

#[verifier::spinoff_prover]
proof fn lemma_letters_no_detach()
    ensures
        "--no-detach".spec_bytes().len() > 2,
        "--no-detach".spec_bytes()[0] == 45,
        "--no-detach".spec_bytes()[1] == 45,
        !"--no-detach".spec_bytes().contains(61u8),
{
    reveal_strlit("--no-detach");
    text::lemma_ascii_bytes("--no-detach");
    let b = "--no-detach".spec_bytes();
    assert(!b.contains(61u8)) by {
        assert forall|i: int| 0 <= i < b.len() implies b[i] != 61 by {}
    }
}

proof fn lemma_name_no_detach()
    ensures
        add::normalized("--no-detach".spec_bytes()) == Some("--no-detach".spec_bytes()),
        bytes::has_prefix("--no-detach".spec_bytes(), "--".spec_bytes()),
        bytes::has_prefix("--no-detach".spec_bytes(), "-".spec_bytes()),
        !"--no-detach".spec_bytes().contains(61u8),
        add::long_options().contains("--no-detach".spec_bytes()),
{
    lemma_letters_no_detach();
    lemma_listed();
    lemma_full_name("--no-detach".spec_bytes());
}

#[verifier::spinoff_prover]
proof fn lemma_letters_force()
    ensures
        "--force".spec_bytes().len() > 2,
        "--force".spec_bytes()[0] == 45,
        "--force".spec_bytes()[1] == 45,
        !"--force".spec_bytes().contains(61u8),
{
    reveal_strlit("--force");
    text::lemma_ascii_bytes("--force");
    let b = "--force".spec_bytes();
    assert(!b.contains(61u8)) by {
        assert forall|i: int| 0 <= i < b.len() implies b[i] != 61 by {}
    }
}

proof fn lemma_name_force()
    ensures
        add::normalized("--force".spec_bytes()) == Some("--force".spec_bytes()),
        bytes::has_prefix("--force".spec_bytes(), "--".spec_bytes()),
        bytes::has_prefix("--force".spec_bytes(), "-".spec_bytes()),
        !"--force".spec_bytes().contains(61u8),
        add::long_options().contains("--force".spec_bytes()),
{
    lemma_letters_force();
    lemma_listed();
    lemma_full_name("--force".spec_bytes());
}

#[verifier::spinoff_prover]
proof fn lemma_letters_no_force()
    ensures
        "--no-force".spec_bytes().len() > 2,
        "--no-force".spec_bytes()[0] == 45,
        "--no-force".spec_bytes()[1] == 45,
        !"--no-force".spec_bytes().contains(61u8),
{
    reveal_strlit("--no-force");
    text::lemma_ascii_bytes("--no-force");
    let b = "--no-force".spec_bytes();
    assert(!b.contains(61u8)) by {
        assert forall|i: int| 0 <= i < b.len() implies b[i] != 61 by {}
    }
}

proof fn lemma_name_no_force()
    ensures
        add::normalized("--no-force".spec_bytes()) == Some("--no-force".spec_bytes()),
        bytes::has_prefix("--no-force".spec_bytes(), "--".spec_bytes()),
        bytes::has_prefix("--no-force".spec_bytes(), "-".spec_bytes()),
        !"--no-force".spec_bytes().contains(61u8),
        add::long_options().contains("--no-force".spec_bytes()),
{
    lemma_letters_no_force();
    lemma_listed();
    lemma_full_name("--no-force".spec_bytes());
}

#[verifier::spinoff_prover]
proof fn lemma_letters_track()
    ensures
        "--track".spec_bytes().len() > 2,
        "--track".spec_bytes()[0] == 45,
        "--track".spec_bytes()[1] == 45,
        !"--track".spec_bytes().contains(61u8),
{
    reveal_strlit("--track");
    text::lemma_ascii_bytes("--track");
    let b = "--track".spec_bytes();
    assert(!b.contains(61u8)) by {
        assert forall|i: int| 0 <= i < b.len() implies b[i] != 61 by {}
    }
}

proof fn lemma_name_track()
    ensures
        add::normalized("--track".spec_bytes()) == Some("--track".spec_bytes()),
        bytes::has_prefix("--track".spec_bytes(), "--".spec_bytes()),
        bytes::has_prefix("--track".spec_bytes(), "-".spec_bytes()),
        !"--track".spec_bytes().contains(61u8),
        add::long_options().contains("--track".spec_bytes()),
{
    lemma_letters_track();
    lemma_listed();
    lemma_full_name("--track".spec_bytes());
}

#[verifier::spinoff_prover]
proof fn lemma_letters_no_track()
    ensures
        "--no-track".spec_bytes().len() > 2,
        "--no-track".spec_bytes()[0] == 45,
        "--no-track".spec_bytes()[1] == 45,
        !"--no-track".spec_bytes().contains(61u8),
{
    reveal_strlit("--no-track");
    text::lemma_ascii_bytes("--no-track");
    let b = "--no-track".spec_bytes();
    assert(!b.contains(61u8)) by {
        assert forall|i: int| 0 <= i < b.len() implies b[i] != 61 by {}
    }
}

proof fn lemma_name_no_track()
    ensures
        add::normalized("--no-track".spec_bytes()) == Some("--no-track".spec_bytes()),
        bytes::has_prefix("--no-track".spec_bytes(), "--".spec_bytes()),
        bytes::has_prefix("--no-track".spec_bytes(), "-".spec_bytes()),
        !"--no-track".spec_bytes().contains(61u8),
        add::long_options().contains("--no-track".spec_bytes()),
{
    lemma_letters_no_track();
    lemma_listed();
    lemma_full_name("--no-track".spec_bytes());
}

#[verifier::spinoff_prover]
proof fn lemma_letters_guess_remote()
    ensures
        "--guess-remote".spec_bytes().len() > 2,
        "--guess-remote".spec_bytes()[0] == 45,
        "--guess-remote".spec_bytes()[1] == 45,
        !"--guess-remote".spec_bytes().contains(61u8),
{
    reveal_strlit("--guess-remote");
    text::lemma_ascii_bytes("--guess-remote");
    let b = "--guess-remote".spec_bytes();
    assert(!b.contains(61u8)) by {
        assert forall|i: int| 0 <= i < b.len() implies b[i] != 61 by {}
    }
}

proof fn lemma_name_guess_remote()
    ensures
        add::normalized("--guess-remote".spec_bytes()) == Some("--guess-remote".spec_bytes()),
        bytes::has_prefix("--guess-remote".spec_bytes(), "--".spec_bytes()),
        bytes::has_prefix("--guess-remote".spec_bytes(), "-".spec_bytes()),
        !"--guess-remote".spec_bytes().contains(61u8),
        add::long_options().contains("--guess-remote".spec_bytes()),
{
    lemma_letters_guess_remote();
    lemma_listed();
    lemma_full_name("--guess-remote".spec_bytes());
}

#[verifier::spinoff_prover]
proof fn lemma_letters_no_guess_remote()
    ensures
        "--no-guess-remote".spec_bytes().len() > 2,
        "--no-guess-remote".spec_bytes()[0] == 45,
        "--no-guess-remote".spec_bytes()[1] == 45,
        !"--no-guess-remote".spec_bytes().contains(61u8),
{
    reveal_strlit("--no-guess-remote");
    text::lemma_ascii_bytes("--no-guess-remote");
    let b = "--no-guess-remote".spec_bytes();
    assert(!b.contains(61u8)) by {
        assert forall|i: int| 0 <= i < b.len() implies b[i] != 61 by {}
    }
}

proof fn lemma_name_no_guess_remote()
    ensures
        add::normalized("--no-guess-remote".spec_bytes()) == Some("--no-guess-remote".spec_bytes()),
        bytes::has_prefix("--no-guess-remote".spec_bytes(), "--".spec_bytes()),
        bytes::has_prefix("--no-guess-remote".spec_bytes(), "-".spec_bytes()),
        !"--no-guess-remote".spec_bytes().contains(61u8),
        add::long_options().contains("--no-guess-remote".spec_bytes()),
{
    lemma_letters_no_guess_remote();
    lemma_listed();
    lemma_full_name("--no-guess-remote".spec_bytes());
}

#[verifier::spinoff_prover]
proof fn lemma_step_help(at: int, scan: Scan)
    requires
        scan.end is None,
    ensures
        add::step("--help".spec_bytes(), at, scan) == Step::Delegate,
{
    lemma_texts();
    lemma_name_help();
    let b = "--help".spec_bytes();
    assert(add::option_step(b, b, at, scan) == Step::Delegate) by {
        reveal(add::option_step);
    }
    reveal(add::step);
}

#[verifier::spinoff_prover]
proof fn lemma_step_checkout(at: int, scan: Scan)
    requires
        scan.end is None,
    ensures
        add::step("--checkout".spec_bytes(), at, scan) == Step::Next(Scan { checkout: true, ..scan }),
{
    lemma_texts();
    lemma_name_checkout();
    let b = "--checkout".spec_bytes();
    assert(add::option_step(b, b, at, scan) == Step::Next(Scan { checkout: true, ..scan })) by {
        reveal(add::option_step);
    }
    reveal(add::step);
}

#[verifier::spinoff_prover]
proof fn lemma_step_no_checkout(at: int, scan: Scan)
    requires
        scan.end is None,
    ensures
        add::step("--no-checkout".spec_bytes(), at, scan) == Step::Next(Scan { checkout: false, ..scan }),
{
    lemma_texts();
    lemma_name_no_checkout();
    let b = "--no-checkout".spec_bytes();
    assert(add::option_step(b, b, at, scan) == Step::Next(Scan { checkout: false, ..scan })) by {
        reveal(add::option_step);
    }
    reveal(add::step);
}

#[verifier::spinoff_prover]
proof fn lemma_step_orphan(at: int, scan: Scan)
    requires
        scan.end is None,
    ensures
        add::step("--orphan".spec_bytes(), at, scan) == Step::Next(Scan { orphan: true, ..scan }),
{
    lemma_texts();
    lemma_name_orphan();
    let b = "--orphan".spec_bytes();
    assert(add::option_step(b, b, at, scan) == Step::Next(Scan { orphan: true, ..scan })) by {
        reveal(add::option_step);
    }
    reveal(add::step);
}

#[verifier::spinoff_prover]
proof fn lemma_step_no_orphan(at: int, scan: Scan)
    requires
        scan.end is None,
    ensures
        add::step("--no-orphan".spec_bytes(), at, scan) == Step::Next(Scan { orphan: false, ..scan }),
{
    lemma_texts();
    lemma_name_no_orphan();
    let b = "--no-orphan".spec_bytes();
    assert(add::option_step(b, b, at, scan) == Step::Next(Scan { orphan: false, ..scan })) by {
        reveal(add::option_step);
    }
    reveal(add::step);
}

#[verifier::spinoff_prover]
proof fn lemma_step_lock(at: int, scan: Scan)
    requires
        scan.end is None,
    ensures
        add::step("--lock".spec_bytes(), at, scan) == Step::Next(Scan { locked: true, ..scan }),
{
    lemma_texts();
    lemma_name_lock();
    let b = "--lock".spec_bytes();
    assert(add::option_step(b, b, at, scan) == Step::Next(Scan { locked: true, ..scan })) by {
        reveal(add::option_step);
    }
    reveal(add::step);
}

#[verifier::spinoff_prover]
proof fn lemma_step_no_lock(at: int, scan: Scan)
    requires
        scan.end is None,
    ensures
        add::step("--no-lock".spec_bytes(), at, scan) == Step::Next(Scan { locked: false, ..scan }),
{
    lemma_texts();
    lemma_name_no_lock();
    let b = "--no-lock".spec_bytes();
    assert(add::option_step(b, b, at, scan) == Step::Next(Scan { locked: false, ..scan })) by {
        reveal(add::option_step);
    }
    reveal(add::step);
}

#[verifier::spinoff_prover]
proof fn lemma_step_reason(at: int, scan: Scan)
    requires
        scan.end is None,
    ensures
        add::step("--reason".spec_bytes(), at, scan) == Step::Value(Scan { reason: true, ..scan }),
{
    lemma_texts();
    lemma_name_reason();
    let b = "--reason".spec_bytes();
    assert(add::option_step(b, b, at, scan) == Step::Value(Scan { reason: true, ..scan })) by {
        reveal(add::option_step);
    }
    reveal(add::step);
}

#[verifier::spinoff_prover]
proof fn lemma_step_no_reason(at: int, scan: Scan)
    requires
        scan.end is None,
    ensures
        add::step("--no-reason".spec_bytes(), at, scan) == Step::Next(Scan { reason: false, ..scan }),
{
    lemma_texts();
    lemma_name_no_reason();
    let b = "--no-reason".spec_bytes();
    assert(add::option_step(b, b, at, scan) == Step::Next(Scan { reason: false, ..scan })) by {
        reveal(add::option_step);
    }
    reveal(add::step);
}

#[verifier::spinoff_prover]
proof fn lemma_step_quiet(at: int, scan: Scan)
    requires
        scan.end is None,
    ensures
        add::step("--quiet".spec_bytes(), at, scan) == Step::Next(Scan { quiet: true, ..scan }),
{
    lemma_texts();
    lemma_name_quiet();
    let b = "--quiet".spec_bytes();
    assert(add::option_step(b, b, at, scan) == Step::Next(Scan { quiet: true, ..scan })) by {
        reveal(add::option_step);
    }
    reveal(add::step);
}

#[verifier::spinoff_prover]
proof fn lemma_step_no_quiet(at: int, scan: Scan)
    requires
        scan.end is None,
    ensures
        add::step("--no-quiet".spec_bytes(), at, scan) == Step::Next(Scan { quiet: false, ..scan }),
{
    lemma_texts();
    lemma_name_no_quiet();
    let b = "--no-quiet".spec_bytes();
    assert(add::option_step(b, b, at, scan) == Step::Next(Scan { quiet: false, ..scan })) by {
        reveal(add::option_step);
    }
    reveal(add::step);
}

#[verifier::spinoff_prover]
proof fn lemma_step_detach(at: int, scan: Scan)
    requires
        scan.end is None,
    ensures
        add::step("--detach".spec_bytes(), at, scan) == Step::Next(Scan { detach: true, ..scan }),
{
    lemma_texts();
    lemma_name_detach();
    let b = "--detach".spec_bytes();
    assert(add::option_step(b, b, at, scan) == Step::Next(Scan { detach: true, ..scan })) by {
        reveal(add::option_step);
    }
    reveal(add::step);
}

#[verifier::spinoff_prover]
proof fn lemma_step_no_detach(at: int, scan: Scan)
    requires
        scan.end is None,
    ensures
        add::step("--no-detach".spec_bytes(), at, scan) == Step::Next(Scan { detach: false, ..scan }),
{
    lemma_texts();
    lemma_name_no_detach();
    let b = "--no-detach".spec_bytes();
    assert(add::option_step(b, b, at, scan) == Step::Next(Scan { detach: false, ..scan })) by {
        reveal(add::option_step);
    }
    reveal(add::step);
}

#[verifier::spinoff_prover]
proof fn lemma_step_force(at: int, scan: Scan)
    requires
        scan.end is None,
    ensures
        add::step("--force".spec_bytes(), at, scan) == Step::Next(scan),
{
    lemma_texts();
    lemma_name_force();
    let b = "--force".spec_bytes();
    assert(add::option_step(b, b, at, scan) == Step::Next(scan)) by {
        reveal(add::option_step);
    }
    reveal(add::step);
}

#[verifier::spinoff_prover]
proof fn lemma_step_no_force(at: int, scan: Scan)
    requires
        scan.end is None,
    ensures
        add::step("--no-force".spec_bytes(), at, scan) == Step::Next(scan),
{
    lemma_texts();
    lemma_name_no_force();
    let b = "--no-force".spec_bytes();
    assert(add::option_step(b, b, at, scan) == Step::Next(scan)) by {
        reveal(add::option_step);
    }
    reveal(add::step);
}

#[verifier::spinoff_prover]
proof fn lemma_step_track(at: int, scan: Scan)
    requires
        scan.end is None,
    ensures
        add::step("--track".spec_bytes(), at, scan) == Step::Next(scan),
{
    lemma_texts();
    lemma_name_track();
    let b = "--track".spec_bytes();
    assert(add::option_step(b, b, at, scan) == Step::Next(scan)) by {
        reveal(add::option_step);
    }
    reveal(add::step);
}

#[verifier::spinoff_prover]
proof fn lemma_step_no_track(at: int, scan: Scan)
    requires
        scan.end is None,
    ensures
        add::step("--no-track".spec_bytes(), at, scan) == Step::Next(scan),
{
    lemma_texts();
    lemma_name_no_track();
    let b = "--no-track".spec_bytes();
    assert(add::option_step(b, b, at, scan) == Step::Next(scan)) by {
        reveal(add::option_step);
    }
    reveal(add::step);
}

#[verifier::spinoff_prover]
proof fn lemma_step_guess_remote(at: int, scan: Scan)
    requires
        scan.end is None,
    ensures
        add::step("--guess-remote".spec_bytes(), at, scan) == Step::Next(scan),
{
    lemma_texts();
    lemma_name_guess_remote();
    let b = "--guess-remote".spec_bytes();
    assert(add::option_step(b, b, at, scan) == Step::Next(scan)) by {
        reveal(add::option_step);
    }
    reveal(add::step);
}

#[verifier::spinoff_prover]
proof fn lemma_step_no_guess_remote(at: int, scan: Scan)
    requires
        scan.end is None,
    ensures
        add::step("--no-guess-remote".spec_bytes(), at, scan) == Step::Next(scan),
{
    lemma_texts();
    lemma_name_no_guess_remote();
    let b = "--no-guess-remote".spec_bytes();
    assert(add::option_step(b, b, at, scan) == Step::Next(scan)) by {
        reveal(add::option_step);
    }
    reveal(add::step);
}

/// Each switch says what it says, whatever was read before it: the last word on
/// a matter counts, and no switch touches another matter or an operand.
pub proof fn last_switch_counts(before: Seq<Seq<u8>>, s: Scan)
    requires
        reads_as(before, s),
        s.end is None,
    ensures
        reads_as(before.push("--checkout".spec_bytes()), Scan { checkout: true, ..s }),
        reads_as(before.push("--no-checkout".spec_bytes()), Scan { checkout: false, ..s }),
        reads_as(before.push("--orphan".spec_bytes()), Scan { orphan: true, ..s }),
        reads_as(before.push("--no-orphan".spec_bytes()), Scan { orphan: false, ..s }),
        reads_as(before.push("--lock".spec_bytes()), Scan { locked: true, ..s }),
        reads_as(before.push("--no-lock".spec_bytes()), Scan { locked: false, ..s }),
        reads_as(before.push("--no-reason".spec_bytes()), Scan { reason: false, ..s }),
        reads_as(before.push("--quiet".spec_bytes()), Scan { quiet: true, ..s }),
        reads_as(before.push("--no-quiet".spec_bytes()), Scan { quiet: false, ..s }),
        reads_as(before.push("--detach".spec_bytes()), Scan { detach: true, ..s }),
        reads_as(before.push("--no-detach".spec_bytes()), Scan { detach: false, ..s }),
        reads_as(before.push("--force".spec_bytes()), s),
        reads_as(before.push("--no-force".spec_bytes()), s),
        reads_as(before.push("--track".spec_bytes()), s),
        reads_as(before.push("--no-track".spec_bytes()), s),
        reads_as(before.push("--guess-remote".spec_bytes()), s),
        reads_as(before.push("--no-guess-remote".spec_bytes()), s),
{
    let at = before.len() as int;
    lemma_step_checkout(at, s);
    lemma_read_one(before, "--checkout".spec_bytes(), s);
    lemma_step_no_checkout(at, s);
    lemma_read_one(before, "--no-checkout".spec_bytes(), s);
    lemma_step_orphan(at, s);
    lemma_read_one(before, "--orphan".spec_bytes(), s);
    lemma_step_no_orphan(at, s);
    lemma_read_one(before, "--no-orphan".spec_bytes(), s);
    lemma_step_lock(at, s);
    lemma_read_one(before, "--lock".spec_bytes(), s);
    lemma_step_no_lock(at, s);
    lemma_read_one(before, "--no-lock".spec_bytes(), s);
    lemma_step_no_reason(at, s);
    lemma_read_one(before, "--no-reason".spec_bytes(), s);
    lemma_step_quiet(at, s);
    lemma_read_one(before, "--quiet".spec_bytes(), s);
    lemma_step_no_quiet(at, s);
    lemma_read_one(before, "--no-quiet".spec_bytes(), s);
    lemma_step_detach(at, s);
    lemma_read_one(before, "--detach".spec_bytes(), s);
    lemma_step_no_detach(at, s);
    lemma_read_one(before, "--no-detach".spec_bytes(), s);
    lemma_step_force(at, s);
    lemma_read_one(before, "--force".spec_bytes(), s);
    lemma_step_no_force(at, s);
    lemma_read_one(before, "--no-force".spec_bytes(), s);
    lemma_step_track(at, s);
    lemma_read_one(before, "--track".spec_bytes(), s);
    lemma_step_no_track(at, s);
    lemma_read_one(before, "--no-track".spec_bytes(), s);
    lemma_step_guess_remote(at, s);
    lemma_read_one(before, "--guess-remote".spec_bytes(), s);
    lemma_step_no_guess_remote(at, s);
    lemma_read_one(before, "--no-guess-remote".spec_bytes(), s);
}

/// Before anything was said a worktree is checked out, on a branch, not locked,
/// with messages, and there are no operands.
pub proof fn nothing_is_asked_at_first()
    ensures
        reads_as(
            Seq::empty(),
            Scan {
                checkout: true,
                orphan: false,
                locked: false,
                quiet: false,
                detach: false,
                reason: false,
                end: None,
                operands: Seq::empty(),
            },
        ),
{
}

/// These are the long options of `git worktree add`, and there are no others.
pub proof fn options_are_those_of_git()
    ensures
        add::long_options() == seq![
            "--help".spec_bytes(),
            "--checkout".spec_bytes(),
            "--no-checkout".spec_bytes(),
            "--orphan".spec_bytes(),
            "--no-orphan".spec_bytes(),
            "--lock".spec_bytes(),
            "--no-lock".spec_bytes(),
            "--reason".spec_bytes(),
            "--no-reason".spec_bytes(),
            "--quiet".spec_bytes(),
            "--no-quiet".spec_bytes(),
            "--detach".spec_bytes(),
            "--no-detach".spec_bytes(),
            "--force".spec_bytes(),
            "--no-force".spec_bytes(),
            "--track".spec_bytes(),
            "--no-track".spec_bytes(),
            "--guess-remote".spec_bytes(),
            "--no-guess-remote".spec_bytes(),
        ],
{
}

/// What is no option is an operand: everything behind the end of the options,
/// what does not begin with a dash, and a single dash.
#[verifier::spinoff_prover]
pub proof fn operands_are_kept(before: Seq<Seq<u8>>, arg: Seq<u8>, s: Scan)
    requires
        reads_as(before, s),
        s.end is Some || arg.len() == 0 || arg[0] != 45 || arg == seq![45u8],
    ensures
        reads_as(before.push(arg), Scan { operands: s.operands.push(arg), ..s }),
{
    lemma_texts();
    reveal(add::step);
    lemma_read_one(before, arg, s);
    assert("-".spec_bytes() =~= seq![45u8]);
    if bytes::has_prefix(arg, "--".spec_bytes()) {
        assert(arg.take(2)[0] == arg[0]);
    }
    if bytes::has_prefix(arg, "-".spec_bytes()) {
        assert(arg.take(1)[0] == arg[0]);
    }
}

/// Two dashes end the options.
#[verifier::spinoff_prover]
pub proof fn two_dashes_end_the_options(before: Seq<Seq<u8>>, s: Scan)
    requires
        reads_as(before, s),
        s.end is None,
    ensures
        reads_as(
            before.push("--".spec_bytes()),
            Scan { end: Some(before.len() as int), ..s },
        ),
{
    lemma_texts();
    let b = "--".spec_bytes();
    lemma_dashes(b);
    assert(add::option_step(b, b, before.len() as int, s) == Step::Next(
        Scan { end: Some(before.len() as int), ..s },
    )) by {
        reveal(add::option_step);
    }
    reveal(add::step);
    lemma_read_one(before, b, s);
}

#[verifier::spinoff_prover]
proof fn lemma_short_value(b: Seq<u8>, at: int, scan: Scan)
    requires
        scan.end is None,
        b == "-b".spec_bytes() || b == "-B".spec_bytes(),
    ensures
        add::step(b, at, scan) == Step::Value(scan),
{
    lemma_texts();
    assert(bytes::has_prefix(b, "-".spec_bytes())) by {
        assert(b.take(1) =~= "-".spec_bytes());
    }
    assert(!bytes::has_prefix(b, "--".spec_bytes())) by {
        assert(b.take(2) =~= b);
    }
    assert(add::option_step(b, b, at, scan) == Step::Value(scan)) by {
        reveal(add::option_step);
    }
    reveal(add::step);
}

/// The argument behind `-b`, `-B` or `--reason` is the option's value: it is no
/// operand and no option, whatever it is. Without a value Git is to answer.
pub proof fn values_are_no_operands(before: Seq<Seq<u8>>, value: Seq<u8>, s: Scan)
    requires
        reads_as(before, s),
        s.end is None,
    ensures
        reads_as(before.push("-b".spec_bytes()).push(value), s),
        reads_as(before.push("-B".spec_bytes()).push(value), s),
        reads_as(before.push("--reason".spec_bytes()).push(value), Scan { reason: true, ..s }),
        is_delegated(before.push("-b".spec_bytes())),
        is_delegated(before.push("-B".spec_bytes())),
        is_delegated(before.push("--reason".spec_bytes())),
{
    let at = before.len() as int;
    lemma_short_value("-b".spec_bytes(), at, s);
    lemma_short_value("-B".spec_bytes(), at, s);
    lemma_step_reason(at, s);
    lemma_read_value(before, "-b".spec_bytes(), value, s, s);
    lemma_read_value(before, "-B".spec_bytes(), value, s, s);
    lemma_read_value(before, "--reason".spec_bytes(), value, s, Scan { reason: true, ..s });
    lemma_read_one(before, "-b".spec_bytes(), s);
    lemma_read_one(before, "-B".spec_bytes(), s);
    lemma_read_one(before, "--reason".spec_bytes(), s);
}

/// A request for help is left to Git, whatever follows it.
#[verifier::spinoff_prover]
pub proof fn help_is_left_to_git(before: Seq<Seq<u8>>, rest: Seq<Seq<u8>>, s: Scan)
    requires
        reads_as(before, s),
        s.end is None,
    ensures
        is_delegated(before.push("-h".spec_bytes()) + rest),
        is_delegated(before.push("--help".spec_bytes()) + rest),
{
    let at = before.len() as int;
    lemma_step_help(at, s);
    let b = "-h".spec_bytes();
    assert(add::step(b, at, s) == Step::Delegate) by {
        lemma_texts();
        assert(bytes::has_prefix(b, "-".spec_bytes())) by {
            assert(b.take(1) =~= "-".spec_bytes());
        }
        assert(!bytes::has_prefix(b, "--".spec_bytes())) by {
            assert(b.take(2) =~= b);
        }
        assert(add::option_step(b, b, at, s) == Step::Delegate) by {
            reveal(add::option_step);
        }
        reveal(add::step);
    }
    let long = "--help".spec_bytes();
    assert(before.push(b) + rest =~= before + (seq![b] + rest));
    assert(before.push(long) + rest =~= before + (seq![long] + rest));
    lemma_read_on(before, seq![b] + rest, s);
    lemma_read_on(before, seq![long] + rest, s);
    assert((before + (seq![b] + rest))[at] == b);
    assert((before + (seq![long] + rest))[at] == long);
}

/// A value can be attached to its option, and then no argument is taken for it.
#[verifier::spinoff_prover]
pub proof fn attached_values_take_no_argument(before: Seq<Seq<u8>>, value: Seq<u8>, s: Scan)
    requires
        reads_as(before, s),
        s.end is None,
    ensures
        reads_as(before.push("--reason=".spec_bytes() + value), Scan { reason: true, ..s }),
        reads_as(before.push("--track=".spec_bytes() + value), s),
        value.len() > 0 ==> reads_as(before.push("-b".spec_bytes() + value), s),
        value.len() > 0 ==> reads_as(before.push("-B".spec_bytes() + value), s),
{
    let at = before.len() as int;
    lemma_attached_reason(at, value, s);
    lemma_attached_track(at, value, s);
    lemma_read_one(before, "--reason=".spec_bytes() + value, s);
    lemma_read_one(before, "--track=".spec_bytes() + value, s);
    if value.len() > 0 {
        lemma_attached_branch("-b".spec_bytes(), at, value, s);
        lemma_attached_branch("-B".spec_bytes(), at, value, s);
        lemma_read_one(before, "-b".spec_bytes() + value, s);
        lemma_read_one(before, "-B".spec_bytes() + value, s);
    }
}

/// An option with a value behind `=` keeps both.
proof fn lemma_assigned(option: Seq<u8>, rest: Seq<u8>)
    requires
        add::long_options().contains(option),
        !option.contains(61u8),
        option.len() > 2,
        option[0] == 45,
        option[1] == 45,
        rest.len() > 0,
        rest[0] == 61,
    ensures
        add::normalized(option + rest) == Some(option + rest),
        bytes::has_prefix(option + rest, "--".spec_bytes()),
        bytes::has_prefix(option + rest, "-".spec_bytes()),
{
    let arg = option + rest;
    bytes::lemma_index_of(arg, 61);
    let at = bytes::index_of(arg, 61u8);
    assert(arg[option.len() as int] == 61);
    if at < option.len() {
        assert(option.contains(option[at]));
    }
    assert(arg.take(at) =~= option);
    assert(option + arg.skip(at) =~= arg);
    lemma_dashes(arg);
}

#[verifier::spinoff_prover]
proof fn lemma_attached_reason(at: int, value: Seq<u8>, scan: Scan)
    requires
        scan.end is None,
    ensures
        add::step("--reason=".spec_bytes() + value, at, scan) == Step::Next(
            Scan { reason: true, ..scan },
        ),
{
    lemma_texts();
    lemma_name_reason();
    let b = "--reason=".spec_bytes() + value;
    assert("--reason=".spec_bytes() =~= "--reason".spec_bytes() + seq![61u8]) by {
        reveal_strlit("--reason");
        reveal_strlit("--reason=");
        text::lemma_ascii_bytes("--reason");
        text::lemma_ascii_bytes("--reason=");
    }
    assert(b =~= "--reason".spec_bytes() + (seq![61u8] + value));
    lemma_assigned("--reason".spec_bytes(), seq![61u8] + value);
    assert(b.take(9) =~= "--reason=".spec_bytes());
    assert(add::option_step(b, b, at, scan) == Step::Next(Scan { reason: true, ..scan })) by {
        reveal(add::option_step);
    }
    reveal(add::step);
}

#[verifier::spinoff_prover]
proof fn lemma_attached_track(at: int, value: Seq<u8>, scan: Scan)
    requires
        scan.end is None,
    ensures
        add::step("--track=".spec_bytes() + value, at, scan) == Step::Next(scan),
{
    lemma_texts();
    lemma_name_track();
    let b = "--track=".spec_bytes() + value;
    assert("--track=".spec_bytes() =~= "--track".spec_bytes() + seq![61u8]) by {
        reveal_strlit("--track");
        reveal_strlit("--track=");
        text::lemma_ascii_bytes("--track");
        text::lemma_ascii_bytes("--track=");
    }
    assert(b =~= "--track".spec_bytes() + (seq![61u8] + value));
    lemma_assigned("--track".spec_bytes(), seq![61u8] + value);
    assert(b.take(8) =~= "--track=".spec_bytes());
    assert(b[2] == 116);
    assert(add::option_step(b, b, at, scan) == Step::Next(scan)) by {
        reveal(add::option_step);
        if bytes::has_prefix(b, "--reason=".spec_bytes()) {
            assert(b.take(9)[2] == b[2]);
        }
    }
    reveal(add::step);
}

#[verifier::spinoff_prover]
proof fn lemma_attached_branch(option: Seq<u8>, at: int, value: Seq<u8>, scan: Scan)
    requires
        scan.end is None,
        option == "-b".spec_bytes() || option == "-B".spec_bytes(),
        value.len() > 0,
    ensures
        add::step(option + value, at, scan) == Step::Next(scan),
{
    lemma_texts();
    let b = option + value;
    assert(b.take(2) =~= option);
    assert(b[1] == option[1]);
    assert(b.take(1) =~= "-".spec_bytes());
    assert(b.take(2)[1] == b[1]);
    assert(!bytes::has_prefix(b, "--".spec_bytes()));
    assert(add::option_step(b, b, at, scan) == Step::Next(scan)) by {
        reveal(add::option_step);
        if bytes::has_prefix(b, "--reason=".spec_bytes()) {
            assert(b.take(9)[1] == b[1]);
        }
    }
    reveal(add::step);
}

/// Letters that stand for `--force`, `--quiet` and `--detach`.
pub open spec fn are_letters(letters: Seq<u8>) -> bool {
    forall|i: int|
        0 <= i < letters.len() ==> #[trigger] letters[i] == 102 || letters[i] == 113 || letters[i]
            == 100
}

/// What such letters ask for.
pub open spec fn lettered(letters: Seq<u8>, s: Scan) -> Scan {
    Scan {
        quiet: s.quiet || letters.contains(113u8),
        detach: s.detach || letters.contains(100u8),
        ..s
    }
}

proof fn lemma_letters(arg: Seq<u8>, b: Seq<u8>, at: int, n: int, scan: Scan)
    requires
        0 <= at <= n <= b.len(),
        are_letters(b.subrange(at, n)),
    ensures
        add::cluster(arg, b, at, scan) == add::cluster(
            arg,
            b,
            n,
            lettered(b.subrange(at, n), scan),
        ),
    decreases n - at,
{
    let part = b.subrange(at, n);
    if at < n {
        let rest = b.subrange(at + 1, n);
        assert(part[0] == b[at]);
        assert forall|i: int| 0 <= i < rest.len() implies #[trigger] rest[i] == 102 || rest[i]
            == 113 || rest[i] == 100 by {
            assert(rest[i] == part[i + 1]);
        }
        assert forall|x: u8| #[trigger] part.contains(x) <==> (x == b[at] || rest.contains(x)) by {
            if rest.contains(x) {
                let k = choose|k: int| 0 <= k < rest.len() && rest[k] == x;
                assert(part[k + 1] == x);
            }
            if part.contains(x) {
                let k = choose|k: int| 0 <= k < part.len() && part[k] == x;
                if k > 0 {
                    assert(rest[k - 1] == x);
                }
            }
            if x == b[at] {
                assert(part[0] == x);
            }
        }
        let next = if b[at] == 113 {
            Scan { quiet: true, ..scan }
        } else if b[at] == 100 {
            Scan { detach: true, ..scan }
        } else {
            scan
        };
        lemma_letters(arg, b, at + 1, n, next);
        assert(part.contains(113u8) <==> (b[at] == 113 || rest.contains(113u8)));
        assert(part.contains(100u8) <==> (b[at] == 100 || rest.contains(100u8)));
    } else {
        assert(part.len() == 0);
        assert(lettered(part, scan) == scan);
    }
}

/// A word of letters behind one dash, read as far as the letters go.
#[verifier::spinoff_prover]
proof fn lemma_word(letters: Seq<u8>, tail: Seq<u8>, at: int, scan: Scan)
    requires
        scan.end is None,
        are_letters(letters),
        letters.len() + tail.len() > 0,
        letters.len() == 0 ==> tail[0] != 45 && tail[0] != 104 && tail[0] != 98 && tail[0] != 66,
    ensures
        ({
            let word = seq![45u8] + letters + tail;
            add::step(word, at, scan) == add::cluster(
                word,
                word,
                1 + letters.len() as int,
                lettered(letters, scan),
            )
        }),
{
    lemma_texts();
    let word = seq![45u8] + letters + tail;
    assert(word[0] == 45);
    if letters.len() > 0 {
        assert(word[1] == letters[0]);
    } else {
        assert(word[1] == tail[0]);
    }
    assert(word.take(1) =~= "-".spec_bytes());
    assert(bytes::has_prefix(word, "-".spec_bytes()));
    if bytes::has_prefix(word, "--".spec_bytes()) {
        assert(word.take(2)[1] == word[1]);
    }
    assert(word.subrange(1, 1 + letters.len() as int) =~= letters);
    lemma_letters(word, word, 1, 1 + letters.len() as int, scan);
    assert(add::option_step(word, word, at, scan) == add::cluster(word, word, 1, scan)) by {
        reveal(add::option_step);
        if bytes::has_prefix(word, "-b".spec_bytes()) {
            assert(word.take(2)[1] == word[1]);
        }
        if bytes::has_prefix(word, "-B".spec_bytes()) {
            assert(word.take(2)[1] == word[1]);
        }
        if bytes::has_prefix(word, "--reason=".spec_bytes()) {
            assert(word.take(9)[1] == word[1]);
        }
        if bytes::has_prefix(word, "--track=".spec_bytes()) {
            assert(word.take(8)[1] == word[1]);
        }
    }
    reveal(add::step);
}

/// Short options can stand together behind one dash: each counts, and a `b` or
/// `B` behind them takes the rest of the word as its value, or the next
/// argument where nothing is left of the word.
pub proof fn short_options_stand_together(
    before: Seq<Seq<u8>>,
    letters: Seq<u8>,
    branch: u8,
    value: Seq<u8>,
    s: Scan,
)
    requires
        reads_as(before, s),
        s.end is None,
        are_letters(letters),
        letters.len() > 0,
        branch == 98 || branch == 66,
    ensures
        reads_as(before.push(seq![45u8] + letters), lettered(letters, s)),
        reads_as(
            before.push(seq![45u8] + letters + seq![branch]).push(value),
            lettered(letters, s),
        ),
        is_delegated(before.push(seq![45u8] + letters + seq![branch])),
        value.len() > 0 ==> reads_as(
            before.push(seq![45u8] + letters + (seq![branch] + value)),
            lettered(letters, s),
        ),
{
    let at = before.len() as int;
    let after = lettered(letters, s);
    let none = Seq::<u8>::empty();
    let plain = seq![45u8] + letters;
    assert(seq![45u8] + letters + none =~= plain);
    lemma_word(letters, none, at, s);
    lemma_read_one(before, plain, s);
    let open = seq![45u8] + letters + seq![branch];
    lemma_word(letters, seq![branch], at, s);
    assert(open[1 + letters.len() as int] == branch);
    lemma_read_one(before, open, s);
    lemma_read_value(before, open, value, s, after);
    if value.len() > 0 {
        let full = seq![45u8] + letters + (seq![branch] + value);
        lemma_word(letters, seq![branch] + value, at, s);
        assert(full[1 + letters.len() as int] == branch);
        lemma_read_one(before, full, s);
    }
}

/// A short option that is not known is refused, whatever follows.
pub proof fn unknown_letters_are_refused(
    before: Seq<Seq<u8>>,
    letters: Seq<u8>,
    tail: Seq<u8>,
    rest: Seq<Seq<u8>>,
    s: Scan,
)
    requires
        reads_as(before, s),
        s.end is None,
        are_letters(letters),
        tail.len() > 0,
        tail[0] != 102 && tail[0] != 113 && tail[0] != 100 && tail[0] != 98 && tail[0] != 66,
        letters.len() == 0 ==> tail[0] != 45 && tail[0] != 104,
    ensures
        is_refused(
            before.push(seq![45u8] + letters + tail) + rest,
            "unsupported worktree add option: "@ + text::lossy_text(
                seq![45u8] + letters + tail,
            ),
        ),
{
    let at = before.len() as int;
    let word = seq![45u8] + letters + tail;
    lemma_word(letters, tail, at, s);
    assert(word[1 + letters.len() as int] == tail[0]);
    assert(before.push(word) + rest =~= before + (seq![word] + rest));
    lemma_read_on(before, seq![word] + rest, s);
    assert((before + (seq![word] + rest))[at] == word);
}

/// The positions of the options that begin with a name.
pub open spec fn begins(name: Seq<u8>, k: int) -> bool {
    0 <= k < add::long_options().len() && bytes::has_prefix(add::long_options()[k], name)
}

proof fn lemma_completions(name: Seq<u8>, n: int)
    requires
        0 <= n <= add::long_options().len(),
    ensures
        ({
            let found = add::completions(add::long_options().take(n), name);
            &&& forall|i: int|
                0 <= i < found.len() ==> exists|k: int|
                    0 <= k < n && begins(name, k) && #[trigger] found[i]
                        == #[trigger] add::long_options()[k]
            &&& forall|k: int|
                0 <= k < n && #[trigger] begins(name, k) ==> found.contains(
                    add::long_options()[k],
                )
            &&& found.len() > 1 ==> exists|j: int, k: int|
                0 <= j < k < n && #[trigger] begins(name, j) && #[trigger] begins(name, k)
        }),
    decreases n,
{
    let all = add::long_options();
    if n > 0 {
        lemma_completions(name, n - 1);
        assert(all.take(n).drop_last() =~= all.take(n - 1));
        assert(all.take(n).last() == all[n - 1]);
        let before = add::completions(all.take(n - 1), name);
        let found = add::completions(all.take(n), name);
        assert(begins(name, n - 1) <==> bytes::has_prefix(all[n - 1], name));
        assert forall|i: int| 0 <= i < found.len() implies exists|k: int|
            0 <= k < n && begins(name, k) && #[trigger] found[i] == #[trigger] all[k] by {
            if i < before.len() {
                assert(found[i] == before[i]);
                let k = choose|k: int|
                    0 <= k < n - 1 && begins(name, k) && before[i] == #[trigger] all[k];
                assert(begins(name, k) && found[i] == all[k]);
            } else {
                assert(begins(name, n - 1) && found[i] == all[n - 1]);
            }
        }
        assert forall|k: int| 0 <= k < n && #[trigger] begins(name, k) implies found.contains(
            all[k],
        ) by {
            if k < n - 1 {
                assert(before.contains(all[k]));
                let i = choose|i: int| 0 <= i < before.len() && before[i] == all[k];
                assert(found[i] == all[k]);
            } else {
                assert(found[found.len() - 1] == all[k]);
            }
        }
        if found.len() > 1 {
            if before.len() > 1 {
                let (j, k) = choose|j: int, k: int|
                    0 <= j < k < n - 1 && #[trigger] begins(name, j) && #[trigger] begins(name, k);
                assert(begins(name, j) && begins(name, k));
            } else {
                assert(before.len() == 1);
                assert(before[0] == before[0]);
                let j = choose|j: int|
                    0 <= j < n - 1 && begins(name, j) && before[0] == #[trigger] all[j];
                assert(begins(name, j) && begins(name, n - 1));
            }
        }
    } else {
        assert(all.take(0) =~= Seq::<Seq<u8>>::empty());
    }
}

/// A name means the one option that begins with it, or the option that it is;
/// otherwise it means none.
pub proof fn names_may_be_cut_short(name: Seq<u8>)
    ensures
        forall|k: int|
            #[trigger] begins(name, k) && (forall|j: int| #[trigger] begins(name, j) ==> j == k)
                ==> add::option_named(name) == Some(add::long_options()[k]),
        add::long_options().contains(name) ==> add::option_named(name) == Some(name),
        (forall|k: int| !#[trigger] begins(name, k)) ==> add::option_named(name) is None,
        !add::long_options().contains(name) && (exists|j: int, k: int|
            j != k && #[trigger] begins(name, j) && #[trigger] begins(name, k) && add::long_options()[j]
                != add::long_options()[k]) ==> add::option_named(name) is None,
{
    let all = add::long_options();
    let n = all.len() as int;
    lemma_completions(name, n);
    assert(all.take(n) =~= all);
    let found = add::completions(all, name);
    assert forall|k: int|
        #[trigger] begins(name, k) && (forall|j: int| #[trigger] begins(name, j) ==> j
            == k) implies add::option_named(name) == Some(all[k]) by {
        assert(found.contains(all[k]));
        if all.contains(name) {
            let j = choose|j: int| 0 <= j < all.len() && all[j] == name;
            assert(all[j].take(name.len() as int) =~= name);
            assert(begins(name, j));
        } else {
            if found.len() > 1 {
                let (i, j) = choose|i: int, j: int|
                    0 <= i < j < n && #[trigger] begins(name, i) && #[trigger] begins(name, j);
                assert(i == k && j == k);
            }
            let i = choose|i: int| 0 <= i < found.len() && found[i] == all[k];
            assert(i == 0);
        }
    }
    if all.contains(name) {
        let j = choose|j: int| 0 <= j < all.len() && all[j] == name;
        assert(all[j].take(name.len() as int) =~= name);
        assert(begins(name, j));
    }
    if forall|k: int| !#[trigger] begins(name, k) {
        if found.len() > 0 {
            assert(found[0] == found[0]);
        }
    }
    if !all.contains(name) && (exists|j: int, k: int|
        j != k && #[trigger] begins(name, j) && #[trigger] begins(name, k) && all[j] != all[k]) {
        let (j, k) = choose|j: int, k: int|
            j != k && #[trigger] begins(name, j) && #[trigger] begins(name, k) && all[j] != all[k];
        assert(found.contains(all[j]) && found.contains(all[k]));
        let x = choose|x: int| 0 <= x < found.len() && found[x] == all[j];
        let y = choose|y: int| 0 <= y < found.len() && found[y] == all[k];
        assert(x != y);
    }
}

proof fn lemma_named(name: Seq<u8>, rest: Seq<u8>)
    requires
        !name.contains(61u8),
        rest.len() == 0 || rest[0] == 61,
    ensures
        add::normalized(name + rest) == (match add::option_named(name) {
            Some(option) => Some(option + rest),
            None => None,
        }),
{
    let arg = name + rest;
    bytes::lemma_index_of(arg, 61);
    let at = bytes::index_of(arg, 61u8);
    if rest.len() > 0 {
        assert(arg[name.len() as int] == 61);
    }
    if at < name.len() {
        assert(name.contains(name[at]));
    }
    assert(arg.take(at) =~= name);
    assert(arg.skip(at) =~= rest);
}

/// An abbreviation does what the option does that it stands for: either is
/// refused, or both come to the same, whatever stands before and behind.
#[verifier::spinoff_prover]
pub proof fn abbreviations_do_what_the_option_does(
    before: Seq<Seq<u8>>,
    name: Seq<u8>,
    k: int,
    value: Seq<u8>,
    rest: Seq<Seq<u8>>,
    s: Scan,
)
    requires
        reads_as(before, s),
        s.end is None,
        name.len() > 2,
        name[0] == 45,
        name[1] == 45,
        !name.contains(61u8),
        value.len() == 0 || value[0] == 61,
        begins(name, k),
        forall|j: int| #[trigger] begins(name, j) ==> j == k,
    ensures
        ({
            let short = before.push(name + value) + rest;
            let full = before.push(add::long_options()[k] + value) + rest;
            let one = add::scan_from(short, 0, add::start());
            let other = add::scan_from(full, 0, add::start());
            one == other || (one is Refused && other is Refused)
        }),
{
    lemma_texts();
    let at = before.len() as int;
    let option = add::long_options()[k];
    let a = name + value;
    let b = option + value;
    names_may_be_cut_short(name);
    lemma_named(name, value);
    lemma_option_shape(k);
    lemma_named(option, value);
    assert(add::long_options().contains(option));
    names_may_be_cut_short(option);
    assert(name =~= option.take(name.len() as int));
    lemma_dashes(a);
    lemma_dashes(b);
    lemma_option_word(a, b, at, s);
    assert(a.len() > 2 && b.len() > 2);
    assert(add::step(a, at, s) == add::option_step(a, b, at, s)) by {
        reveal(add::step);
    }
    assert(add::step(b, at, s) == add::option_step(b, b, at, s)) by {
        reveal(add::step);
    }
    let short = before.push(a) + rest;
    let full = before.push(b) + rest;
    assert(short =~= before + (seq![a] + rest));
    assert(full =~= before + (seq![b] + rest));
    lemma_read_on(before, seq![a] + rest, s);
    lemma_read_on(before, seq![b] + rest, s);
    assert(short[at] == a && full[at] == b);
    match add::option_step(b, b, at, s) {
        Step::Next(after) => {
            lemma_same_rest(short, full, at + 1, after);
        },
        Step::Value(after) => {
            if at + 1 < short.len() {
                lemma_same_rest(short, full, at + 2, after);
            }
        },
        _ => {},
    }
}

/// Two lists that are equal from a position on come to the same from there.
proof fn lemma_same_rest(a: Seq<Seq<u8>>, b: Seq<Seq<u8>>, at: int, scan: Scan)
    requires
        0 <= at,
        a.len() == b.len(),
        forall|i: int| at <= i < a.len() ==> #[trigger] a[i] == b[i],
    ensures
        add::scan_from(a, at, scan) == add::scan_from(b, at, scan),
    decreases a.len() - at,
{
    if at < a.len() {
        assert(a[at] == b[at]);
        match add::step(a[at], at, scan) {
            Step::Next(after) => lemma_same_rest(a, b, at + 1, after),
            Step::Value(after) => {
                if at + 1 < a.len() {
                    lemma_same_rest(a, b, at + 2, after);
                }
            },
            _ => {},
        }
    }
}

/// A long option is read by its name written out, but for what a refusal shows.
proof fn lemma_option_word(a: Seq<u8>, b: Seq<u8>, at: int, scan: Scan)
    requires
        bytes::has_prefix(b, "--".spec_bytes()),
    ensures
        add::option_step(a, b, at, scan) == add::option_step(b, b, at, scan) || (add::option_step(
            a,
            b,
            at,
            scan,
        ) is Refuse && add::option_step(b, b, at, scan) is Refuse),
{
    reveal(add::option_step);
}

#[verifier::spinoff_prover]
proof fn lemma_option_shape(k: int)
    requires
        0 <= k < add::long_options().len(),
    ensures
        ({
            let option = add::long_options()[k];
            &&& option.len() > 2
            &&& option[0] == 45
            &&& option[1] == 45
            &&& !option.contains(61u8)
        }),
{
    lemma_texts();
    lemma_name_help();
    lemma_name_checkout();
    lemma_name_no_checkout();
    lemma_name_orphan();
    lemma_name_no_orphan();
    lemma_name_lock();
    lemma_name_no_lock();
    lemma_name_reason();
    lemma_name_no_reason();
    lemma_name_quiet();
    lemma_name_no_quiet();
    lemma_name_detach();
    lemma_name_no_detach();
    lemma_name_force();
    lemma_name_no_force();
    lemma_name_track();
    lemma_name_no_track();
    lemma_name_guess_remote();
    lemma_name_no_guess_remote();
}

/// What begins no option, or several of them, means none.
proof fn lemma_meaningless(name: Seq<u8>)
    requires
        !add::long_options().contains(name),
        (forall|k: int| !#[trigger] begins(name, k)) || (exists|j: int, k: int|
            j != k && #[trigger] begins(name, j) && #[trigger] begins(name, k) && add::long_options()[j]
                != add::long_options()[k]),
    ensures
        add::option_named(name) is None,
{
    names_may_be_cut_short(name);
}

/// A name that means no option, or more than one, is refused, whatever follows.
#[verifier::spinoff_prover]
pub proof fn unknown_options_are_refused(
    before: Seq<Seq<u8>>,
    name: Seq<u8>,
    value: Seq<u8>,
    rest: Seq<Seq<u8>>,
    s: Scan,
)
    requires
        reads_as(before, s),
        s.end is None,
        name.len() >= 2,
        name[0] == 45,
        name[1] == 45,
        name.len() + value.len() > 2,
        !name.contains(61u8),
        value.len() == 0 || value[0] == 61,
        !add::long_options().contains(name),
        (forall|k: int| !#[trigger] begins(name, k)) || (exists|j: int, k: int|
            j != k && #[trigger] begins(name, j) && #[trigger] begins(name, k) && add::long_options()[j]
                != add::long_options()[k]),
    ensures
        is_refused(
            before.push(name + value) + rest,
            "unknown or ambiguous worktree add option: "@ + text::lossy_text(name + value),
        ),
{
    let at = before.len() as int;
    let a = name + value;
    lemma_meaningless(name);
    lemma_named(name, value);
    assert(a[0] == 45 && a[1] == 45);
    lemma_dashes(a);
    assert("--".spec_bytes().len() == 2) by {
        lemma_texts();
    }
    assert(a.len() > 2);
    assert(add::step(a, at, s) == Step::Refuse(add::unknown_option(a))) by {
        reveal(add::step);
    }
    let all = before.push(a) + rest;
    assert(all =~= before + (seq![a] + rest));
    lemma_read_on(before, seq![a] + rest, s);
    assert(all[at] == a);
}

/// A value for an option that takes none is refused, whatever follows.
#[verifier::spinoff_prover]
pub proof fn values_of_switches_are_refused(
    before: Seq<Seq<u8>>,
    k: int,
    value: Seq<u8>,
    rest: Seq<Seq<u8>>,
    s: Scan,
)
    requires
        reads_as(before, s),
        s.end is None,
        0 <= k < add::long_options().len(),
        add::long_options()[k] != "--reason".spec_bytes(),
        add::long_options()[k] != "--track".spec_bytes(),
        value.len() > 0,
        value[0] == 61,
    ensures
        is_refused(
            before.push(add::long_options()[k] + value) + rest,
            "unsupported worktree add option: "@ + text::lossy_text(
                add::long_options()[k] + value,
            ) + "; cannot safely transform creation"@,
        ),
{
    let at = before.len() as int;
    let option = add::long_options()[k];
    let a = option + value;
    lemma_option_shape(k);
    assert(add::long_options().contains(option));
    lemma_assigned(option, value);
    lemma_not_plain(k, value);
    assert(add::step(a, at, s) == Step::Refuse(add::unsupported_long(a))) by {
        lemma_texts();
        assert(add::option_step(a, a, at, s) == Step::Refuse(add::unsupported_long(a))) by {
            reveal(add::option_step);
            if bytes::has_prefix(a, "-b".spec_bytes()) {
                assert(a.take(2)[1] == a[1]);
            }
            if bytes::has_prefix(a, "-B".spec_bytes()) {
                assert(a.take(2)[1] == a[1]);
            }
        }
        reveal(add::step);
    }
    let all = before.push(a) + rest;
    assert(all =~= before + (seq![a] + rest));
    lemma_read_on(before, seq![a] + rest, s);
    assert(all[at] == a);
}

/// What holds `=` is no option without a value.
#[verifier::spinoff_prover]
proof fn lemma_not_plain(k: int, value: Seq<u8>)
    requires
        0 <= k < add::long_options().len(),
        add::long_options()[k] != "--reason".spec_bytes(),
        add::long_options()[k] != "--track".spec_bytes(),
        value.len() > 0,
        value[0] == 61,
    ensures
        ({
            let a = add::long_options()[k] + value;
            &&& forall|j: int| 0 <= j < add::long_options().len() ==> a != #[trigger] add::long_options()[j]
            &&& !bytes::has_prefix(a, "--reason=".spec_bytes())
            &&& !bytes::has_prefix(a, "--track=".spec_bytes())
            &&& a != "--help".spec_bytes()
            &&& a != "--checkout".spec_bytes()
            &&& a != "--no-checkout".spec_bytes()
            &&& a != "--orphan".spec_bytes()
            &&& a != "--no-orphan".spec_bytes()
            &&& a != "--lock".spec_bytes()
            &&& a != "--no-lock".spec_bytes()
            &&& a != "--reason".spec_bytes()
            &&& a != "--no-reason".spec_bytes()
            &&& a != "--quiet".spec_bytes()
            &&& a != "--no-quiet".spec_bytes()
            &&& a != "--detach".spec_bytes()
            &&& a != "--no-detach".spec_bytes()
            &&& a != "--force".spec_bytes()
            &&& a != "--no-force".spec_bytes()
            &&& a != "--track".spec_bytes()
            &&& a != "--no-track".spec_bytes()
            &&& a != "--guess-remote".spec_bytes()
            &&& a != "--no-guess-remote".spec_bytes()
        }),
{
    let option = add::long_options()[k];
    let a = option + value;
    lemma_option_shape(k);
    assert(a[option.len() as int] == 61);
    assert(a.contains(61u8));
    assert forall|j: int| 0 <= j < add::long_options().len() implies a
        != #[trigger] add::long_options()[j] by {
        lemma_option_shape(j);
    }
    assert(a != "--help".spec_bytes()) by {
        lemma_option_shape(0);
        assert(add::long_options()[0] == "--help".spec_bytes());
    }
    assert(a != "--checkout".spec_bytes()) by {
        lemma_option_shape(1);
        assert(add::long_options()[1] == "--checkout".spec_bytes());
    }
    assert(a != "--no-checkout".spec_bytes()) by {
        lemma_option_shape(2);
        assert(add::long_options()[2] == "--no-checkout".spec_bytes());
    }
    assert(a != "--orphan".spec_bytes()) by {
        lemma_option_shape(3);
        assert(add::long_options()[3] == "--orphan".spec_bytes());
    }
    assert(a != "--no-orphan".spec_bytes()) by {
        lemma_option_shape(4);
        assert(add::long_options()[4] == "--no-orphan".spec_bytes());
    }
    assert(a != "--lock".spec_bytes()) by {
        lemma_option_shape(5);
        assert(add::long_options()[5] == "--lock".spec_bytes());
    }
    assert(a != "--no-lock".spec_bytes()) by {
        lemma_option_shape(6);
        assert(add::long_options()[6] == "--no-lock".spec_bytes());
    }
    assert(a != "--reason".spec_bytes()) by {
        lemma_option_shape(7);
        assert(add::long_options()[7] == "--reason".spec_bytes());
    }
    assert(a != "--no-reason".spec_bytes()) by {
        lemma_option_shape(8);
        assert(add::long_options()[8] == "--no-reason".spec_bytes());
    }
    assert(a != "--quiet".spec_bytes()) by {
        lemma_option_shape(9);
        assert(add::long_options()[9] == "--quiet".spec_bytes());
    }
    assert(a != "--no-quiet".spec_bytes()) by {
        lemma_option_shape(10);
        assert(add::long_options()[10] == "--no-quiet".spec_bytes());
    }
    assert(a != "--detach".spec_bytes()) by {
        lemma_option_shape(11);
        assert(add::long_options()[11] == "--detach".spec_bytes());
    }
    assert(a != "--no-detach".spec_bytes()) by {
        lemma_option_shape(12);
        assert(add::long_options()[12] == "--no-detach".spec_bytes());
    }
    assert(a != "--force".spec_bytes()) by {
        lemma_option_shape(13);
        assert(add::long_options()[13] == "--force".spec_bytes());
    }
    assert(a != "--no-force".spec_bytes()) by {
        lemma_option_shape(14);
        assert(add::long_options()[14] == "--no-force".spec_bytes());
    }
    assert(a != "--track".spec_bytes()) by {
        lemma_option_shape(15);
        assert(add::long_options()[15] == "--track".spec_bytes());
    }
    assert(a != "--no-track".spec_bytes()) by {
        lemma_option_shape(16);
        assert(add::long_options()[16] == "--no-track".spec_bytes());
    }
    assert(a != "--guess-remote".spec_bytes()) by {
        lemma_option_shape(17);
        assert(add::long_options()[17] == "--guess-remote".spec_bytes());
    }
    assert(a != "--no-guess-remote".spec_bytes()) by {
        lemma_option_shape(18);
        assert(add::long_options()[18] == "--no-guess-remote".spec_bytes());
    }
    assert(!bytes::has_prefix(a, "--reason=".spec_bytes())) by {
        if bytes::has_prefix(a, "--reason=".spec_bytes()) {
            lemma_cut(option, value, "--reason".spec_bytes(), "--reason=".spec_bytes());
        }
    }
    assert(!bytes::has_prefix(a, "--track=".spec_bytes())) by {
        if bytes::has_prefix(a, "--track=".spec_bytes()) {
            lemma_cut(option, value, "--track".spec_bytes(), "--track=".spec_bytes());
        }
    }
}

/// Where the first `=` of a word stands, its name ends.
#[verifier::spinoff_prover]
proof fn lemma_cut(option: Seq<u8>, value: Seq<u8>, name: Seq<u8>, lead: Seq<u8>)
    requires
        !option.contains(61u8),
        value.len() > 0,
        value[0] == 61,
        bytes::has_prefix(option + value, lead),
        (name == "--reason".spec_bytes() && lead == "--reason=".spec_bytes()) || (name
            == "--track".spec_bytes() && lead == "--track=".spec_bytes()),
    ensures
        option == name,
{
    reveal_strlit("--reason");
    reveal_strlit("--reason=");
    reveal_strlit("--track");
    reveal_strlit("--track=");
    text::lemma_ascii_bytes("--reason");
    text::lemma_ascii_bytes("--reason=");
    text::lemma_ascii_bytes("--track");
    text::lemma_ascii_bytes("--track=");
    let a = option + value;
    let n = name.len() as int;
    assert(lead =~= name.push(61u8));
    assert(a.take(n + 1) == lead);
    assert(a[n] == a.take(n + 1)[n]);
    if option.len() > n {
        assert(option[n] == 61);
        assert(option.contains(option[n]));
    }
    if option.len() < n {
        assert(a[option.len() as int] == 61);
        assert(lead[option.len() as int] == 61);
        assert(name[option.len() as int] == 61);
    }
    assert forall|i: int| 0 <= i < n implies option[i] == name[i] by {
        assert(a.take(n + 1)[i] == a[i]);
    }
    assert(option =~= name);
}

/// A request is what its arguments were read as: one or two operands, of which
/// the first is the path and a second one a target that was named, and a reason
/// only for a lock. Everything else is left to Git.
pub proof fn request_is_what_was_read(
    args: Seq<Seq<u8>>,
    s: Scan,
    result: Result<Option<Add>, Error>,
)
    requires
        reads_as(args, s),
        add::is_parse(args, result),
    ensures
        result is Ok,
        result->Ok_0 is Some <==> (s.operands.len() == 1 || s.operands.len() == 2) && (s.reason
            ==> s.locked),
        result->Ok_0 matches Some(add) ==> {
            &&& add.path@ == s.operands[0]
            &&& add.explicit_target == (s.operands.len() == 2)
            &&& add.checkout == s.checkout
            &&& add.orphan == s.orphan
            &&& add.locked == s.locked
            &&& add.quiet == s.quiet
            &&& add.detach == s.detach
            &&& add.end_of_options is Some <==> s.end is Some
            &&& add.end_of_options matches Some(at) ==> s.end == Some(at as int)
        },
{
}

/// Arguments that are left to Git make no request, and those that are refused
/// make an error.
pub proof fn no_request_without_reading(args: Seq<Seq<u8>>, result: Result<Option<Add>, Error>)
    requires
        add::is_parse(args, result),
    ensures
        is_delegated(args) ==> result matches Ok(None),
        forall|message: Seq<char>| #[trigger]
            is_refused(args, message) ==> (result matches Err(error) && error@
                == Failure::Message(message)),
{
}

/// The request is registered with the options of cowtree behind its own: no
/// checkout, a lock, and a reason where the request does not lock.
pub proof fn registration_adds_its_options(args: Seq<Seq<u8>>, end: Option<int>, locked: bool)
    requires
        end matches Some(at) ==> 0 <= at <= args.len(),
    ensures
        ({
            let at = match end {
                Some(at) => at,
                None => args.len() as int,
            };
            let result = add::registration(args, end, locked);
            let count: int = if locked {
                2
            } else {
                4
            };
            &&& result.len() == args.len() + count
            &&& result.take(at) == args.take(at)
            &&& result.skip(at + count) == args.skip(at)
            &&& result[at] == "--no-checkout".spec_bytes()
            &&& result[at + 1] == "--lock".spec_bytes()
            &&& !locked ==> result[at + 2] == "--reason".spec_bytes() && result[at + 3]
                == "cowtree: initializing".spec_bytes()
        }),
{
    let at = match end {
        Some(at) => at,
        None => args.len() as int,
    };
    let result = add::registration(args, end, locked);
    let more = add::internal_options(locked);
    assert(result.take(at) =~= args.take(at));
    assert(result.skip(at + more.len()) =~= args.skip(at));
    assert(result[at] == more[0]);
    assert(result[at + 1] == more[1]);
    if !locked {
        assert(result[at + 2] == more[2]);
        assert(result[at + 3] == more[3]);
    }
}

} // verus!
