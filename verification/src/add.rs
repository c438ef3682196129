//! Arguments of `cowtree add`, and how they are handed on to Git.
use crate::bytes;
use crate::error::{Error, Failure};
use crate::paths;
use crate::process;
use crate::process::ProcessOutput;
use crate::text;
use vstd::prelude::*;
use vstd::string::*;

verus! {

/// What `cowtree add` was asked for.
#[derive(Debug)]
pub struct Add {
    pub path: Vec<u8>,
    pub checkout: bool,
    pub orphan: bool,
    pub locked: bool,
    pub quiet: bool,
    pub explicit_target: bool,
    pub detach: bool,
    pub end_of_options: Option<usize>,
}

/// What has been read of the arguments: the switches in force, whether a lock
/// reason was given, where the options ended, and the operands.
pub struct Scan {
    pub checkout: bool,
    pub orphan: bool,
    pub locked: bool,
    pub quiet: bool,
    pub detach: bool,
    pub reason: bool,
    pub end: Option<int>,
    pub operands: Seq<Seq<u8>>,
}

/// What one argument does.
pub enum Step {
    /// The next argument is read.
    Next(Scan),
    /// The next argument is this option's value.
    Value(Scan),
    /// Git is to answer for itself.
    Delegate,
    Refuse(Failure),
}

/// What the arguments come to.
pub enum Parsed {
    Delegate,
    Refused(Failure),
    Scanned(Scan),
}

pub open spec fn long_options() -> Seq<Seq<u8>> {
    seq![
        "--help".spec_bytes(),
        "--checkout".spec_bytes(),
        "--no-checkout".spec_bytes(),
        "--orphan".spec_bytes(),
        "--no-orphan".spec_bytes(),
        "--lock".spec_bytes(),
        "--no-lock".spec_bytes(),
        "--reason".spec_bytes(),
        "--no-reason".spec_bytes(),
        "--quiet".spec_bytes(),
        "--no-quiet".spec_bytes(),
        "--detach".spec_bytes(),
        "--no-detach".spec_bytes(),
        "--force".spec_bytes(),
        "--no-force".spec_bytes(),
        "--track".spec_bytes(),
        "--no-track".spec_bytes(),
        "--guess-remote".spec_bytes(),
        "--no-guess-remote".spec_bytes(),
    ]
}

/// The options that start with `name`.
pub open spec fn completions(options: Seq<Seq<u8>>, name: Seq<u8>) -> Seq<Seq<u8>>
    decreases options.len(),
{
    if options.len() == 0 {
        Seq::empty()
    } else {
        let rest = completions(options.drop_last(), name);
        if bytes::has_prefix(options.last(), name) {
            rest.push(options.last())
        } else {
            rest
        }
    }
}

/// The option that `name` means: itself, or the only one it abbreviates.
pub open spec fn option_named(name: Seq<u8>) -> Option<Seq<u8>> {
    let found = completions(long_options(), name);
    if long_options().contains(name) {
        Some(name)
    } else if found.len() == 1 {
        Some(found[0])
    } else {
        None
    }
}

/// A long option with its name written out; a value behind `=` stays as it is.
pub open spec fn normalized(raw: Seq<u8>) -> Option<Seq<u8>> {
    let split = bytes::index_of(raw, 61);
    match option_named(raw.take(split)) {
        Some(option) => Some(option + raw.skip(split)),
        None => None,
    }
}

pub open spec fn unknown_option(raw: Seq<u8>) -> Failure {
    Failure::Message("unknown or ambiguous worktree add option: "@ + text::lossy_text(raw))
}

pub open spec fn unsupported_short(arg: Seq<u8>) -> Failure {
    Failure::Message("unsupported worktree add option: "@ + text::lossy_text(arg))
}

pub open spec fn unsupported_long(arg: Seq<u8>) -> Failure {
    Failure::Message(
        "unsupported worktree add option: "@ + text::lossy_text(arg)
            + "; cannot safely transform creation"@,
    )
}

pub open spec fn is_operand(b: Seq<u8>, ended: bool) -> bool {
    ended || !bytes::has_prefix(b, "-".spec_bytes()) || b == "-".spec_bytes()
}

/// A cluster of short options, read from its position `at`.
pub open spec fn cluster(arg: Seq<u8>, b: Seq<u8>, at: int, scan: Scan) -> Step
    decreases b.len() - at,
{
    if at >= b.len() {
        Step::Next(scan)
    } else if b[at] == 102 {
        cluster(arg, b, at + 1, scan)
    } else if b[at] == 113 {
        cluster(arg, b, at + 1, Scan { quiet: true, ..scan })
    } else if b[at] == 100 {
        cluster(arg, b, at + 1, Scan { detach: true, ..scan })
    } else if b[at] == 98 || b[at] == 66 {
        if at + 1 == b.len() {
            Step::Value(scan)
        } else {
            Step::Next(scan)
        }
    } else {
        Step::Refuse(unsupported_short(arg))
    }
}

/// What the switch `b` does, where it is one.
pub open spec fn switch(b: Seq<u8>, scan: Scan) -> Option<Scan> {
    if b == "--checkout".spec_bytes() {
        Some(Scan { checkout: true, ..scan })
    } else if b == "--no-checkout".spec_bytes() {
        Some(Scan { checkout: false, ..scan })
    } else if b == "--orphan".spec_bytes() {
        Some(Scan { orphan: true, ..scan })
    } else if b == "--no-orphan".spec_bytes() {
        Some(Scan { orphan: false, ..scan })
    } else if b == "--lock".spec_bytes() {
        Some(Scan { locked: true, ..scan })
    } else if b == "--no-lock".spec_bytes() {
        Some(Scan { locked: false, ..scan })
    } else if b == "--quiet".spec_bytes() {
        Some(Scan { quiet: true, ..scan })
    } else if b == "--no-quiet".spec_bytes() {
        Some(Scan { quiet: false, ..scan })
    } else if b == "--detach".spec_bytes() {
        Some(Scan { detach: true, ..scan })
    } else if b == "--no-detach".spec_bytes() {
        Some(Scan { detach: false, ..scan })
    } else if b == "--no-reason".spec_bytes() {
        Some(Scan { reason: false, ..scan })
    } else if b == "--force".spec_bytes() || b == "--no-force".spec_bytes()
        || b == "--track".spec_bytes() || b == "--no-track".spec_bytes()
        || b == "--guess-remote".spec_bytes() || b == "--no-guess-remote".spec_bytes() {
        Some(scan)
    } else {
        None
    }
}

/// What an option does; `b` is the argument with a long name written out.
#[verifier::opaque]
pub open spec fn option_step(arg: Seq<u8>, b: Seq<u8>, at: int, scan: Scan) -> Step {
    if b == "--".spec_bytes() {
        Step::Next(Scan { end: Some(at), ..scan })
    } else if b == "-h".spec_bytes() || b == "--help".spec_bytes() {
        Step::Delegate
    } else if b == "-b".spec_bytes() || b == "-B".spec_bytes() {
        Step::Value(scan)
    } else if b == "--reason".spec_bytes() {
        Step::Value(Scan { reason: true, ..scan })
    } else if bytes::has_prefix(b, "--reason=".spec_bytes()) {
        Step::Next(Scan { reason: true, ..scan })
    } else if bytes::has_prefix(b, "--track=".spec_bytes()) || ((bytes::has_prefix(
        b,
        "-b".spec_bytes(),
    ) || bytes::has_prefix(b, "-B".spec_bytes())) && b.len() > 2) {
        Step::Next(scan)
    } else {
        match switch(b, scan) {
            Some(after) => Step::Next(after),
            None => if !bytes::has_prefix(b, "--".spec_bytes()) {
                cluster(arg, b, 1, scan)
            } else {
                Step::Refuse(unsupported_long(arg))
            },
        }
    }
}

/// What the argument at position `at` does.
#[verifier::opaque]
pub open spec fn step(arg: Seq<u8>, at: int, scan: Scan) -> Step {
    let ended = scan.end is Some;
    let long = !ended && bytes::has_prefix(arg, "--".spec_bytes()) && arg != "--".spec_bytes();
    if long && normalized(arg) is None {
        Step::Refuse(unknown_option(arg))
    } else {
        let b = if long {
            normalized(arg)->0
        } else {
            arg
        };
        if is_operand(b, ended) {
            Step::Next(Scan { operands: scan.operands.push(arg), ..scan })
        } else {
            option_step(arg, b, at, scan)
        }
    }
}

/// What the arguments from position `at` on come to.
pub open spec fn scan_from(args: Seq<Seq<u8>>, at: int, scan: Scan) -> Parsed
    decreases args.len() - at,
{
    if at >= args.len() {
        Parsed::Scanned(scan)
    } else {
        match step(args[at], at, scan) {
            Step::Next(after) => scan_from(args, at + 1, after),
            Step::Value(after) => if at + 1 < args.len() {
                scan_from(args, at + 2, after)
            } else {
                Parsed::Delegate
            },
            Step::Delegate => Parsed::Delegate,
            Step::Refuse(failure) => Parsed::Refused(failure),
        }
    }
}

pub open spec fn start() -> Scan {
    Scan {
        checkout: true,
        orphan: false,
        locked: false,
        quiet: false,
        detach: false,
        reason: false,
        end: None,
        operands: Seq::empty(),
    }
}

/// Arity and lock syntax that Git accepts.
pub open spec fn acceptable(scan: Scan) -> bool {
    &&& 1 <= scan.operands.len() <= 2
    &&& scan.reason ==> scan.locked
}

impl Add {
    /// This request is what `scan` read.
    pub open spec fn reads(&self, scan: Scan) -> bool {
        &&& self.path@ == scan.operands[0]
        &&& self.explicit_target == (scan.operands.len() == 2)
        &&& self.checkout == scan.checkout
        &&& self.orphan == scan.orphan
        &&& self.locked == scan.locked
        &&& self.quiet == scan.quiet
        &&& self.detach == scan.detach
        &&& self.end_of_options is Some <==> scan.end is Some
        &&& self.end_of_options matches Some(at) ==> scan.end == Some(at as int)
    }
}

/// What parsing `args` gives.
pub open spec fn is_parse(args: Seq<Seq<u8>>, result: Result<Option<Add>, Error>) -> bool {
    match scan_from(args, 0, start()) {
        Parsed::Refused(failure) => result matches Err(error) && error@ == failure,
        Parsed::Delegate => result matches Ok(None),
        Parsed::Scanned(scan) => if acceptable(scan) {
            result matches Ok(Some(add)) && add.reads(scan)
        } else {
            result matches Ok(None)
        },
    }
}

fn push_option(list: &mut Vec<Vec<u8>>, name: &str)
    ensures
        bytes::views(final(list)@) == bytes::views(old(list)@).push(name.spec_bytes()),
{
    let ghost before = bytes::views(list@);
    let option = bytes::copy(name.as_bytes());
    let ghost o = option@;
    list.push(option);
    assert(bytes::views(list@) =~= before.push(o));
}

fn long_option_list() -> (options: Vec<Vec<u8>>)
    ensures
        bytes::views(options@) == long_options(),
{
    let mut list: Vec<Vec<u8>> = Vec::new();
    assert(bytes::views(list@) =~= Seq::<Seq<u8>>::empty());
    push_option(&mut list, "--help");
    push_option(&mut list, "--checkout");
    push_option(&mut list, "--no-checkout");
    push_option(&mut list, "--orphan");
    push_option(&mut list, "--no-orphan");
    push_option(&mut list, "--lock");
    push_option(&mut list, "--no-lock");
    push_option(&mut list, "--reason");
    push_option(&mut list, "--no-reason");
    push_option(&mut list, "--quiet");
    push_option(&mut list, "--no-quiet");
    push_option(&mut list, "--detach");
    push_option(&mut list, "--no-detach");
    push_option(&mut list, "--force");
    push_option(&mut list, "--no-force");
    push_option(&mut list, "--track");
    push_option(&mut list, "--no-track");
    push_option(&mut list, "--guess-remote");
    push_option(&mut list, "--no-guess-remote");
    assert(bytes::views(list@) =~= long_options());
    list
}

fn option_error(lead: &str, arg: &[u8], tail: &str) -> (error: Error)
    ensures
        error@ == Failure::Message(lead@ + text::lossy_text(arg@) + tail@),
{
    let mut message = lead.to_owned();
    let shown = text::lossy(arg);
    message.append(shown.as_str());
    message.append(tail);
    Error::Message(message)
}

/// Writes out the name of a long option, as Git does with abbreviations.
pub fn normalize_long(raw: &[u8]) -> (result: Result<Vec<u8>, Error>)
    ensures
        result is Ok <==> normalized(raw@) is Some,
        result matches Ok(option) ==> Some(option@) == normalized(raw@),
        result matches Err(error) ==> error@ == unknown_option(raw@),
{
    let split = bytes::position(raw, 61);
    proof {
        bytes::lemma_index_of(raw@, 61);
    }
    let name = bytes::slice(raw, 0, split);
    assert(name@ =~= raw@.take(split as int));
    let value = bytes::slice(raw, split, raw.len());
    assert(value@ =~= raw@.skip(split as int));
    let options = long_option_list();
    let ghost all = long_options();
    let mut exact = false;
    let mut count: usize = 0;
    let mut only: usize = 0;
    assert(all.take(0) =~= Seq::<Seq<u8>>::empty());
    for i in 0..options.len()
        invariant
            bytes::views(options@) == all,
            exact <==> exists|j: int| 0 <= j < i && #[trigger] all[j] == name@,
            count == completions(all.take(i as int), name@).len(),
            count <= i,
            count > 0 ==> only < i && completions(all.take(i as int), name@).last() == all[only as int],
    {
        assert(all.take(i + 1).drop_last() =~= all.take(i as int));
        assert(all[i as int] == options@[i as int]@);
        if bytes::equal(options[i].as_slice(), name.as_slice()) {
            exact = true;
        }
        if bytes::starts_with(options[i].as_slice(), name.as_slice()) {
            count += 1;
            only = i;
        }
    }
    assert(all.take(all.len() as int) =~= all);
    if exact {
        assert(all.contains(name@));
        let mut option = name;
        bytes::append(&mut option, value.as_slice());
        return Ok(option);
    }
    assert(!all.contains(name@));
    if count == 1 {
        let mut option = bytes::copy(options[only].as_slice());
        bytes::append(&mut option, value.as_slice());
        return Ok(option);
    }
    let error = option_error("unknown or ambiguous worktree add option: ", raw, "");
    proof {
        reveal_strlit("");
        let shown = "unknown or ambiguous worktree add option: "@ + text::lossy_text(raw@);
        assert(shown + ""@ =~= shown);
    }
    Err(error)
}

/// The state of a scan.
struct Progress {
    add: Add,
    reason: bool,
    operands: Vec<Vec<u8>>,
}

impl Progress {
    spec fn view(&self) -> Scan {
        Scan {
            checkout: self.add.checkout,
            orphan: self.add.orphan,
            locked: self.add.locked,
            quiet: self.add.quiet,
            detach: self.add.detach,
            reason: self.reason,
            end: match self.add.end_of_options {
                Some(at) => Some(at as int),
                None => None,
            },
            operands: bytes::views(self.operands@),
        }
    }
}

/// What one argument did.
enum Outcome {
    Next,
    Value,
    Delegate,
    Refuse(Error),
}

/// `outcome`, with the scan after it, is what `step` says.
spec fn is_step(step: Step, outcome: Outcome, after: Scan) -> bool {
    match step {
        Step::Next(scan) => outcome is Next && after == scan,
        Step::Value(scan) => outcome is Value && after == scan,
        Step::Delegate => outcome is Delegate,
        Step::Refuse(failure) => outcome matches Outcome::Refuse(error) && error@ == failure,
    }
}

fn read_cluster(progress: &mut Progress, arg: &[u8], b: &[u8]) -> (outcome: Outcome)
    requires
        b@.len() >= 1,
    ensures
        is_step(cluster(arg@, b@, 1, old(progress)@), outcome, final(progress)@),
{
    let ghost first = progress@;
    let mut at: usize = 1;
    while at < b.len()
        invariant
            1 <= at <= b@.len(),
            first == old(progress)@,
            cluster(arg@, b@, 1, first) == cluster(arg@, b@, at as int, progress@),
        decreases b@.len() - at,
    {
        let option = b[at];
        if option == 102 {
        } else if option == 113 {
            progress.add.quiet = true;
        } else if option == 100 {
            progress.add.detach = true;
        } else if option == 98 || option == 66 {
            if at + 1 == b.len() {
                return Outcome::Value;
            }
            return Outcome::Next;
        } else {
            let error = option_error("unsupported worktree add option: ", arg, "");
            proof {
                reveal_strlit("");
                let shown = "unsupported worktree add option: "@ + text::lossy_text(arg@);
                assert(shown + ""@ =~= shown);
            }
            return Outcome::Refuse(error);
        }
        at += 1;
    }
    Outcome::Next
}

fn read_switch(progress: &mut Progress, b: &[u8]) -> (known: bool)
    ensures
        known <==> switch(b@, old(progress)@) is Some,
        known ==> Some(final(progress)@) == switch(b@, old(progress)@),
        !known ==> final(progress)@ == old(progress)@,
{
    if bytes::equal(b, "--checkout".as_bytes()) {
        progress.add.checkout = true;
        true
    } else if bytes::equal(b, "--no-checkout".as_bytes()) {
        progress.add.checkout = false;
        true
    } else if bytes::equal(b, "--orphan".as_bytes()) {
        progress.add.orphan = true;
        true
    } else if bytes::equal(b, "--no-orphan".as_bytes()) {
        progress.add.orphan = false;
        true
    } else if bytes::equal(b, "--lock".as_bytes()) {
        progress.add.locked = true;
        true
    } else if bytes::equal(b, "--no-lock".as_bytes()) {
        progress.add.locked = false;
        true
    } else if bytes::equal(b, "--quiet".as_bytes()) {
        progress.add.quiet = true;
        true
    } else if bytes::equal(b, "--no-quiet".as_bytes()) {
        progress.add.quiet = false;
        true
    } else if bytes::equal(b, "--detach".as_bytes()) {
        progress.add.detach = true;
        true
    } else if bytes::equal(b, "--no-detach".as_bytes()) {
        progress.add.detach = false;
        true
    } else if bytes::equal(b, "--no-reason".as_bytes()) {
        progress.reason = false;
        true
    } else {
        bytes::equal(b, "--force".as_bytes()) || bytes::equal(b, "--no-force".as_bytes())
            || bytes::equal(b, "--track".as_bytes()) || bytes::equal(b, "--no-track".as_bytes())
            || bytes::equal(b, "--guess-remote".as_bytes()) || bytes::equal(
            b,
            "--no-guess-remote".as_bytes(),
        )
    }
}

fn read_option(progress: &mut Progress, arg: &[u8], b: &[u8], at: usize) -> (outcome: Outcome)
    requires
        b@.len() >= 1,
    ensures
        is_step(option_step(arg@, b@, at as int, old(progress)@), outcome, final(progress)@),
{
    proof {
        reveal(option_step);
    }
    if bytes::equal(b, "--".as_bytes()) {
        progress.add.end_of_options = Some(at);
        return Outcome::Next;
    }
    if bytes::equal(b, "-h".as_bytes()) || bytes::equal(b, "--help".as_bytes()) {
        return Outcome::Delegate;
    }
    if bytes::equal(b, "-b".as_bytes()) || bytes::equal(b, "-B".as_bytes()) {
        return Outcome::Value;
    }
    if bytes::equal(b, "--reason".as_bytes()) {
        progress.reason = true;
        return Outcome::Value;
    }
    if bytes::starts_with(b, "--reason=".as_bytes()) {
        progress.reason = true;
        return Outcome::Next;
    }
    if bytes::starts_with(b, "--track=".as_bytes()) || ((bytes::starts_with(b, "-b".as_bytes())
        || bytes::starts_with(b, "-B".as_bytes())) && b.len() > 2) {
        return Outcome::Next;
    }
    if read_switch(progress, b) {
        return Outcome::Next;
    }
    if !bytes::starts_with(b, "--".as_bytes()) {
        return read_cluster(progress, arg, b);
    }
    Outcome::Refuse(
        option_error(
            "unsupported worktree add option: ",
            arg,
            "; cannot safely transform creation",
        ),
    )
}

fn push_operand(progress: &mut Progress, arg: &[u8])
    ensures
        final(progress)@ == (Scan { operands: old(progress)@.operands.push(arg@), ..old(progress)@ }),
{
    let ghost before = bytes::views(progress.operands@);
    let operand = bytes::copy(arg);
    let ghost o = operand@;
    progress.operands.push(operand);
    assert(bytes::views(progress.operands@) =~= before.push(o));
}

fn read_argument(progress: &mut Progress, arg: &[u8], at: usize) -> (outcome: Outcome)
    ensures
        is_step(step(arg@, at as int, old(progress)@), outcome, final(progress)@),
{
    proof {
        reveal(step);
    }
    let ended = progress.add.end_of_options.is_some();
    let long = !ended && bytes::starts_with(arg, "--".as_bytes()) && !bytes::equal(
        arg,
        "--".as_bytes(),
    );
    let b = if long {
        match normalize_long(arg) {
            Ok(option) => option,
            Err(error) => {
                return Outcome::Refuse(error);
            },
        }
    } else {
        bytes::copy(arg)
    };
    if ended || !bytes::starts_with(b.as_slice(), "-".as_bytes()) || bytes::equal(
        b.as_slice(),
        "-".as_bytes(),
    ) {
        push_operand(progress, arg);
        return Outcome::Next;
    }
    proof {
        reveal_strlit("-");
        assert("-".is_ascii());
        assert("-".spec_bytes().len() == 1);
    }
    read_option(progress, arg, b.as_slice(), at)
}

/// Reads the arguments of `git worktree add`. `Ok(None)` leaves them to Git:
/// a request for help, an option without its value, or arity and lock syntax
/// that Git rejects with its own diagnostics.
pub fn parse_add(args: &Vec<Vec<u8>>) -> (result: Result<Option<Add>, Error>)
    ensures
        is_parse(bytes::views(args@), result),
        result matches Ok(Some(add)) ==> (add.end_of_options matches Some(at) ==> at < args@.len()),
{
    let ghost all = bytes::views(args@);
    let mut progress = Progress {
        add: Add {
            path: Vec::new(),
            checkout: true,
            orphan: false,
            locked: false,
            quiet: false,
            explicit_target: false,
            detach: false,
            end_of_options: None,
        },
        reason: false,
        operands: Vec::new(),
    };
    assert(progress@.operands =~= Seq::<Seq<u8>>::empty());
    let mut i: usize = 0;
    while i < args.len()
        invariant
            all == bytes::views(args@),
            i <= args@.len(),
            scan_from(all, 0, start()) == scan_from(all, i as int, progress@),
        decreases args@.len() - i,
    {
        assert(all[i as int] == args@[i as int]@);
        let outcome = read_argument(&mut progress, args[i].as_slice(), i);
        match outcome {
            Outcome::Next => {
                i += 1;
            },
            Outcome::Value => {
                if args.len() - i <= 1 {
                    return Ok(None);
                }
                i += 2;
            },
            Outcome::Delegate => {
                return Ok(None);
            },
            Outcome::Refuse(error) => {
                return Err(error);
            },
        }
    }
    let ghost scan = progress@;
    if progress.operands.len() == 0 || progress.operands.len() > 2 || (progress.reason
        && !progress.add.locked) {
        return Ok(None);
    }
    let mut add = progress.add;
    add.path = bytes::copy(progress.operands[0].as_slice());
    add.explicit_target = progress.operands.len() == 2;
    assert(add.reads(scan));
    proof {
        lemma_scan_end(all, 0, start());
    }
    Ok(Some(add))
}

/// The options that cowtree adds to a request: no checkout, a lock, and a
/// reason for the lock where the request has no lock of its own.
pub open spec fn internal_options(locked: bool) -> Seq<Seq<u8>> {
    let always = seq!["--no-checkout".spec_bytes(), "--lock".spec_bytes()];
    if locked {
        always
    } else {
        always + seq!["--reason".spec_bytes(), "cowtree: initializing".spec_bytes()]
    }
}

/// Where they go: before the end-of-options marker, behind the other options.
pub open spec fn internal_position(args: Seq<Seq<u8>>, end: Option<int>) -> int {
    match end {
        Some(at) => at,
        None => args.len() as int,
    }
}

pub open spec fn registration(args: Seq<Seq<u8>>, end: Option<int>, locked: bool) -> Seq<Seq<u8>> {
    let at = internal_position(args, end);
    args.take(at) + internal_options(locked) + args.skip(at)
}

/// The arguments with which Git is asked to register the worktree.
pub fn registration_args(args: &Vec<Vec<u8>>, add: &Add) -> (result: Vec<Vec<u8>>)
    requires
        add.end_of_options matches Some(at) ==> at <= args@.len(),
    ensures
        bytes::views(result@) == registration(
            bytes::views(args@),
            match add.end_of_options {
                Some(at) => Some(at as int),
                None => None,
            },
            add.locked,
        ),
{
    let ghost all = bytes::views(args@);
    let at: usize = match add.end_of_options {
        Some(at) => at,
        None => args.len(),
    };
    let mut result: Vec<Vec<u8>> = Vec::new();
    assert(bytes::views(result@) =~= all.take(0));
    for i in 0..at
        invariant
            all == bytes::views(args@),
            at <= args@.len(),
            bytes::views(result@) == all.take(i as int),
    {
        let ghost before = bytes::views(result@);
        let arg = bytes::copy(args[i].as_slice());
        let ghost a = arg@;
        result.push(arg);
        assert(bytes::views(result@) =~= before.push(a));
        assert(bytes::views(result@) =~= all.take(i + 1));
    }
    push_option(&mut result, "--no-checkout");
    push_option(&mut result, "--lock");
    if !add.locked {
        push_option(&mut result, "--reason");
        push_option(&mut result, "cowtree: initializing");
    }
    let ghost head = all.take(at as int) + internal_options(add.locked);
    assert(bytes::views(result@) =~= head);
    assert(head =~= head + all.subrange(at as int, at as int));
    for i in at..args.len()
        invariant
            all == bytes::views(args@),
            at <= args@.len(),
            bytes::views(result@) == head + all.subrange(at as int, i as int),
    {
        let ghost before = bytes::views(result@);
        let arg = bytes::copy(args[i].as_slice());
        let ghost a = arg@;
        result.push(arg);
        assert(bytes::views(result@) =~= before.push(a));
        assert(bytes::views(result@) =~= head + all.subrange(at as int, i + 1));
    }
    assert(all.subrange(at as int, all.len() as int) =~= all.skip(at as int));
    result
}

/// Once the options have ended, everything is an operand.
proof fn lemma_operands(args: Seq<Seq<u8>>, at: int, scan: Scan)
    requires
        scan.end is Some,
        0 <= at <= args.len(),
    ensures
        scan_from(args, at, scan) == Parsed::Scanned(
            Scan { operands: scan.operands + args.skip(at), ..scan },
        ),
    decreases args.len() - at,
{
    reveal(step);
    if at < args.len() {
        let after = Scan { operands: scan.operands.push(args[at]), ..scan };
        assert(step(args[at], at, scan) == Step::Next(after));
        lemma_operands(args, at + 1, after);
        assert(after.operands + args.skip(at + 1) =~= scan.operands + args.skip(at));
    } else {
        assert(scan.operands + args.skip(at) =~= scan.operands);
    }
}

proof fn lemma_cluster_keeps_end(arg: Seq<u8>, b: Seq<u8>, at: int, scan: Scan)
    ensures
        cluster(arg, b, at, scan) matches Step::Next(after) ==> after.end == scan.end,
        cluster(arg, b, at, scan) matches Step::Value(after) ==> after.end == scan.end,
    decreases b.len() - at,
{
    if at < b.len() {
        lemma_cluster_keeps_end(arg, b, at + 1, scan);
        lemma_cluster_keeps_end(arg, b, at + 1, Scan { quiet: true, ..scan });
        lemma_cluster_keeps_end(arg, b, at + 1, Scan { detach: true, ..scan });
    }
}

/// An argument ends the options only at its own position, and the marker that
/// does so does nothing else.
proof fn lemma_step_end(arg: Seq<u8>, at: int, scan: Scan)
    requires
        scan.end is None,
    ensures
        step(arg, at, scan) matches Step::Value(after) ==> after.end is None,
        step(arg, at, scan) matches Step::Next(after) ==> {
            ||| after.end is None
            ||| {
                &&& after == Scan { end: Some(at), ..scan }
                &&& forall|elsewhere: int, other: Scan|
                    other.end is None ==> #[trigger] step(arg, elsewhere, other) == Step::Next(
                        Scan { end: Some(elsewhere), ..other },
                    )
            }
        },
{
    reveal(step);
    let long = bytes::has_prefix(arg, "--".spec_bytes()) && arg != "--".spec_bytes();
    let b = if long {
        normalized(arg)->0
    } else {
        arg
    };
    lemma_option_end(arg, b, at, scan);
    if let Step::Next(after) = step(arg, at, scan) {
        if after.end is Some {
            assert forall|elsewhere: int, other: Scan| other.end is None implies #[trigger] step(
                arg,
                elsewhere,
                other,
            ) == Step::Next(Scan { end: Some(elsewhere), ..other }) by {
                lemma_option_end(arg, b, elsewhere, other);
            }
        }
    }
}

/// Only the marker ends the options.
proof fn lemma_option_end(arg: Seq<u8>, b: Seq<u8>, at: int, scan: Scan)
    ensures
        b == "--".spec_bytes() ==> option_step(arg, b, at, scan) == Step::Next(
            Scan { end: Some(at), ..scan },
        ),
        b != "--".spec_bytes() ==> {
            &&& option_step(arg, b, at, scan) matches Step::Next(after) ==> after.end == scan.end
            &&& option_step(arg, b, at, scan) matches Step::Value(after) ==> after.end == scan.end
        },
{
    reveal(option_step);
    lemma_cluster_keeps_end(arg, b, 1, scan);
}

/// The options of a scan that succeeds end at or behind where it stands.
proof fn lemma_scan_end(args: Seq<Seq<u8>>, at: int, scan: Scan)
    requires
        0 <= at <= args.len(),
        scan.end is None,
        scan_from(args, at, scan) is Scanned,
    ensures
        scan_from(args, at, scan)->Scanned_0.end matches Some(k) ==> at <= k < args.len(),
    decreases args.len() - at,
{
    if at < args.len() {
        lemma_step_end(args[at], at, scan);
        match step(args[at], at, scan) {
            Step::Next(after) => {
                if after.end is None {
                    lemma_scan_end(args, at + 1, after);
                } else {
                    lemma_operands(args, at + 1, after);
                }
            },
            Step::Value(after) => {
                lemma_scan_end(args, at + 2, after);
            },
            _ => {},
        }
    }
}

/// What a scan has read when it reaches the position of the internal options.
spec fn scan_at(args: Seq<Seq<u8>>, at: int, stop: int, scan: Scan) -> Scan
    decreases stop + 1 - at,
{
    if at >= stop {
        scan
    } else {
        match step(args[at], at, scan) {
            Step::Next(after) => scan_at(args, at + 1, stop, after),
            Step::Value(after) => scan_at(args, at + 2, stop, after),
            _ => scan,
        }
    }
}

proof fn lemma_scan_prefix(
    args: Seq<Seq<u8>>,
    changed: Seq<Seq<u8>>,
    at: int,
    stop: int,
    scan: Scan,
)
    requires
        0 <= at <= stop <= args.len(),
        stop <= changed.len(),
        args.take(stop) == changed.take(stop),
        scan.end is None,
        scan_from(args, at, scan) is Scanned,
        stop == internal_position(args, scan_from(args, at, scan)->Scanned_0.end),
    ensures
        scan_at(args, at, stop, scan).end is None,
        scan_from(args, at, scan) == scan_from(args, stop, scan_at(args, at, stop, scan)),
        scan_from(changed, at, scan) == scan_from(changed, stop, scan_at(args, at, stop, scan)),
    decreases stop - at,
{
    if at < stop {
        assert(args[at] == args.take(stop)[at]);
        assert(changed[at] == changed.take(stop)[at]);
        lemma_step_end(args[at], at, scan);
        match step(args[at], at, scan) {
            Step::Next(after) => {
                if after.end is None {
                    lemma_scan_prefix(args, changed, at + 1, stop, after);
                } else {
                    lemma_operands(args, at + 1, after);
                }
            },
            Step::Value(after) => {
                lemma_scan_end(args, at + 2, after);
                lemma_scan_prefix(args, changed, at + 2, stop, after);
            },
            _ => {},
        }
    }
}

/// How `--no-checkout` differs from the options that are looked for before it.
#[verifier::spinoff_prover]
proof fn lemma_no_checkout_text()
    ensures
        long_options().contains("--no-checkout".spec_bytes()),
        "--no-checkout".spec_bytes().len() > 2,
        "--no-checkout".spec_bytes()[0] == 45,
        "--no-checkout".spec_bytes()[1] == 45,
        !"--no-checkout".spec_bytes().contains(61u8),
        "--no-checkout".spec_bytes() != "-".spec_bytes(),
        "--no-checkout".spec_bytes() != "--".spec_bytes(),
        "--no-checkout".spec_bytes() != "-h".spec_bytes(),
        "--no-checkout".spec_bytes() != "--help".spec_bytes(),
        "--no-checkout".spec_bytes() != "-b".spec_bytes(),
        "--no-checkout".spec_bytes() != "-B".spec_bytes(),
        "--no-checkout".spec_bytes() != "--reason".spec_bytes(),
        "--no-checkout".spec_bytes() != "--checkout".spec_bytes(),
        !bytes::has_prefix("--no-checkout".spec_bytes(), "--reason=".spec_bytes()),
        !bytes::has_prefix("--no-checkout".spec_bytes(), "--track=".spec_bytes()),
        !bytes::has_prefix("--no-checkout".spec_bytes(), "-b".spec_bytes()),
        !bytes::has_prefix("--no-checkout".spec_bytes(), "-B".spec_bytes()),
{
    reveal_strlit("-");
    text::lemma_ascii_bytes("-");
    reveal_strlit("--");
    text::lemma_ascii_bytes("--");
    reveal_strlit("--checkout");
    text::lemma_ascii_bytes("--checkout");
    reveal_strlit("--help");
    text::lemma_ascii_bytes("--help");
    reveal_strlit("--no-checkout");
    text::lemma_ascii_bytes("--no-checkout");
    reveal_strlit("--reason");
    text::lemma_ascii_bytes("--reason");
    reveal_strlit("--reason=");
    text::lemma_ascii_bytes("--reason=");
    reveal_strlit("--track=");
    text::lemma_ascii_bytes("--track=");
    reveal_strlit("-B");
    text::lemma_ascii_bytes("-B");
    reveal_strlit("-b");
    text::lemma_ascii_bytes("-b");
    reveal_strlit("-h");
    text::lemma_ascii_bytes("-h");
    let b = "--no-checkout".spec_bytes();
    assert(long_options()[2] == b);
    assert(b.take(9)[2] == b[2]);
    assert(b[2] != "--reason=".spec_bytes()[2]);
    assert(b.take(8)[2] == b[2]);
    assert(b[2] != "--track=".spec_bytes()[2]);
    assert(b.take(2)[1] == b[1]);
    assert(b[1] != "-b".spec_bytes()[1]);
    assert(b.take(2)[1] == b[1]);
    assert(b[1] != "-B".spec_bytes()[1]);
    assert(!b.contains(61u8)) by {
        assert forall|i: int| 0 <= i < b.len() implies b[i] != 61 by {}
    }
}

#[verifier::spinoff_prover]
proof fn lemma_no_checkout(at: int, scan: Scan)
    requires
        scan.end is None,
    ensures
        step("--no-checkout".spec_bytes(), at, scan) == Step::Next(Scan { checkout: false, ..scan }),
{
    lemma_no_checkout_text();
    let b = "--no-checkout".spec_bytes();
    assert forall|i: int| 0 <= i < b.len() implies b[i] != 61 by {
        assert(b.contains(b[i]));
    }
    lemma_plain_option(b);
    assert(option_step(b, b, at, scan) == Step::Next(Scan { checkout: false, ..scan })) by {
        reveal(option_step);
    }
    reveal(step);
}

/// How `--lock` differs from the options that are looked for before it.
#[verifier::spinoff_prover]
proof fn lemma_lock_text()
    ensures
        long_options().contains("--lock".spec_bytes()),
        "--lock".spec_bytes().len() > 2,
        "--lock".spec_bytes()[0] == 45,
        "--lock".spec_bytes()[1] == 45,
        !"--lock".spec_bytes().contains(61u8),
        "--lock".spec_bytes() != "-".spec_bytes(),
        "--lock".spec_bytes() != "--".spec_bytes(),
        "--lock".spec_bytes() != "-h".spec_bytes(),
        "--lock".spec_bytes() != "--help".spec_bytes(),
        "--lock".spec_bytes() != "-b".spec_bytes(),
        "--lock".spec_bytes() != "-B".spec_bytes(),
        "--lock".spec_bytes() != "--reason".spec_bytes(),
        "--lock".spec_bytes() != "--checkout".spec_bytes(),
        "--lock".spec_bytes() != "--no-checkout".spec_bytes(),
        "--lock".spec_bytes() != "--orphan".spec_bytes(),
        "--lock".spec_bytes() != "--no-orphan".spec_bytes(),
        !bytes::has_prefix("--lock".spec_bytes(), "--reason=".spec_bytes()),
        !bytes::has_prefix("--lock".spec_bytes(), "--track=".spec_bytes()),
        !bytes::has_prefix("--lock".spec_bytes(), "-b".spec_bytes()),
        !bytes::has_prefix("--lock".spec_bytes(), "-B".spec_bytes()),
{
    reveal_strlit("-");
    text::lemma_ascii_bytes("-");
    reveal_strlit("--");
    text::lemma_ascii_bytes("--");
    reveal_strlit("--checkout");
    text::lemma_ascii_bytes("--checkout");
    reveal_strlit("--help");
    text::lemma_ascii_bytes("--help");
    reveal_strlit("--lock");
    text::lemma_ascii_bytes("--lock");
    reveal_strlit("--no-checkout");
    text::lemma_ascii_bytes("--no-checkout");
    reveal_strlit("--no-orphan");
    text::lemma_ascii_bytes("--no-orphan");
    reveal_strlit("--orphan");
    text::lemma_ascii_bytes("--orphan");
    reveal_strlit("--reason");
    text::lemma_ascii_bytes("--reason");
    reveal_strlit("--reason=");
    text::lemma_ascii_bytes("--reason=");
    reveal_strlit("--track=");
    text::lemma_ascii_bytes("--track=");
    reveal_strlit("-B");
    text::lemma_ascii_bytes("-B");
    reveal_strlit("-b");
    text::lemma_ascii_bytes("-b");
    reveal_strlit("-h");
    text::lemma_ascii_bytes("-h");
    let b = "--lock".spec_bytes();
    assert(long_options()[5] == b);
    assert(b[2] != "--help".spec_bytes()[2]);
    assert(b.take(2)[1] == b[1]);
    assert(b[1] != "-b".spec_bytes()[1]);
    assert(b.take(2)[1] == b[1]);
    assert(b[1] != "-B".spec_bytes()[1]);
    assert(!b.contains(61u8)) by {
        assert forall|i: int| 0 <= i < b.len() implies b[i] != 61 by {}
    }
}

#[verifier::spinoff_prover]
proof fn lemma_lock(at: int, scan: Scan)
    requires
        scan.end is None,
    ensures
        step("--lock".spec_bytes(), at, scan) == Step::Next(Scan { locked: true, ..scan }),
{
    lemma_lock_text();
    let b = "--lock".spec_bytes();
    assert forall|i: int| 0 <= i < b.len() implies b[i] != 61 by {
        assert(b.contains(b[i]));
    }
    lemma_plain_option(b);
    assert(option_step(b, b, at, scan) == Step::Next(Scan { locked: true, ..scan })) by {
        reveal(option_step);
    }
    reveal(step);
}

/// How `--reason` differs from the options that are looked for before it.
#[verifier::spinoff_prover]
proof fn lemma_reason_text()
    ensures
        long_options().contains("--reason".spec_bytes()),
        "--reason".spec_bytes().len() > 2,
        "--reason".spec_bytes()[0] == 45,
        "--reason".spec_bytes()[1] == 45,
        !"--reason".spec_bytes().contains(61u8),
        "--reason".spec_bytes() != "-".spec_bytes(),
        "--reason".spec_bytes() != "--".spec_bytes(),
        "--reason".spec_bytes() != "-h".spec_bytes(),
        "--reason".spec_bytes() != "--help".spec_bytes(),
        "--reason".spec_bytes() != "-b".spec_bytes(),
        "--reason".spec_bytes() != "-B".spec_bytes(),
{
    reveal_strlit("-");
    text::lemma_ascii_bytes("-");
    reveal_strlit("--");
    text::lemma_ascii_bytes("--");
    reveal_strlit("--help");
    text::lemma_ascii_bytes("--help");
    reveal_strlit("--reason");
    text::lemma_ascii_bytes("--reason");
    reveal_strlit("-B");
    text::lemma_ascii_bytes("-B");
    reveal_strlit("-b");
    text::lemma_ascii_bytes("-b");
    reveal_strlit("-h");
    text::lemma_ascii_bytes("-h");
    let b = "--reason".spec_bytes();
    assert(long_options()[7] == b);
    assert(!b.contains(61u8)) by {
        assert forall|i: int| 0 <= i < b.len() implies b[i] != 61 by {}
    }
}

#[verifier::spinoff_prover]
proof fn lemma_reason(at: int, scan: Scan)
    requires
        scan.end is None,
    ensures
        step("--reason".spec_bytes(), at, scan) == Step::Value(Scan { reason: true, ..scan }),
{
    lemma_reason_text();
    let b = "--reason".spec_bytes();
    assert forall|i: int| 0 <= i < b.len() implies b[i] != 61 by {
        assert(b.contains(b[i]));
    }
    lemma_plain_option(b);
    assert(option_step(b, b, at, scan) == Step::Value(Scan { reason: true, ..scan })) by {
        reveal(option_step);
    }
    reveal(step);
}

/// A long option written out in full, without a value, is normal already.
proof fn lemma_plain_option(option: Seq<u8>)
    requires
        long_options().contains(option),
        forall|i: int| 0 <= i < option.len() ==> option[i] != 61,
        option.len() > 2,
        option[0] == 45,
        option[1] == 45,
    ensures
        normalized(option) == Some(option),
        bytes::has_prefix(option, "--".spec_bytes()),
        bytes::has_prefix(option, "-".spec_bytes()),
{
    bytes::lemma_index_of(option, 61);
    assert(option.take(option.len() as int) =~= option);
    assert(option + option.skip(option.len() as int) =~= option);
    reveal_strlit("-");
    reveal_strlit("--");
    text::lemma_ascii_bytes("-");
    text::lemma_ascii_bytes("--");
    assert(option.take(1) =~= "-".spec_bytes());
    assert(option.take(2) =~= "--".spec_bytes());
}

/// The arguments handed to Git mean the same request, without checkout and
/// locked: the internal settings win, and no other switch and no operand is
/// disturbed.
pub proof fn registration_keeps_request(args: Seq<Seq<u8>>, scan: Scan)
    requires
        scan_from(args, 0, start()) == Parsed::Scanned(scan),
    ensures
        scan_from(registration(args, scan.end, scan.locked), 0, start()) == Parsed::Scanned(
            Scan {
                checkout: false,
                locked: true,
                reason: scan.reason || !scan.locked,
                end: match scan.end {
                    Some(at) => Some((at + internal_options(scan.locked).len()) as int),
                    None => None,
                },
                ..scan
            },
        ),
{
    let stop = internal_position(args, scan.end);
    let more = internal_options(scan.locked);
    let changed = registration(args, scan.end, scan.locked);
    lemma_scan_end(args, 0, start());
    assert(args.take(stop) =~= changed.take(stop));
    lemma_scan_prefix(args, changed, 0, stop, start());
    let reached = scan_at(args, 0, stop, start());
    assert(changed[stop] == more[0]);
    assert(changed[stop + 1] == more[1]);
    let first = Scan { checkout: false, ..reached };
    let second = Scan { locked: true, ..first };
    lemma_no_checkout(stop, reached);
    lemma_lock(stop + 1, first);
    lemma_reason(stop + 2, second);
    let next = stop + more.len();
    if scan.end is Some {
        lemma_step_end(args[stop], stop, reached);
        match step(args[stop], stop, reached) {
            Step::Next(after) => {
                if after.end is None {
                    lemma_scan_end(args, stop + 1, after);
                } else {
                    lemma_operands(args, stop + 1, after);
                }
            },
            Step::Value(after) => {
                if stop + 1 < args.len() {
                    lemma_scan_end(args, stop + 2, after);
                }
            },
            _ => {},
        }
        assert(reached.locked == scan.locked);
        assert(reached.reason == scan.reason);
    }
    let third = if scan.locked {
        second
    } else {
        assert(changed[stop + 2] == more[2]);
        Scan { reason: true, ..second }
    };
    assert(scan_from(changed, stop, reached) == scan_from(changed, stop + 1, first));
    assert(scan_from(changed, stop + 1, first) == scan_from(changed, stop + 2, second));
    assert(scan_from(changed, stop + 2, second) == scan_from(changed, next, third));
    if scan.end is Some {
        assert(changed[next] == args[stop]);
        let ended = Scan { end: Some(next), ..third };
        assert(step(args[stop], next, third) == Step::Next(ended));
        lemma_operands(changed, next + 1, ended);
        assert(changed.skip(next + 1) =~= args.skip(stop + 1));
    }
}

/// Who creates the worktree.
#[derive(Clone, Copy, Debug, PartialEq, Eq, Structural)]
pub enum Route {
    /// Git does, with the arguments as they are.
    Native,
    /// Git does where nothing has been committed yet; that has to be found out.
    FindUnborn,
    /// cowtree does.
    Create,
}

/// Git handles what it is to diagnose itself, worktrees without checkout and
/// orphan branches, and an inferred unborn branch.
pub fn run(add: &Option<Add>) -> (route: Route)
    ensures
        route == (match *add {
            None => Route::Native,
            Some(add) => if !add.checkout || add.orphan {
                Route::Native
            } else if !add.explicit_target && !add.detach {
                Route::FindUnborn
            } else {
                Route::Create
            },
        }),
{
    match add {
        None => Route::Native,
        Some(add) => if !add.checkout || add.orphan {
            Route::Native
        } else if !add.explicit_target && !add.detach {
            Route::FindUnborn
        } else {
            Route::Create
        },
    }
}

/// An unborn branch is inferred where there is no reference at all and no
/// commit at `HEAD`.
pub fn unborn(references: &[u8], head_found: bool) -> (route: Route)
    ensures
        route == (if references@.len() == 0 && !head_found {
            Route::Native
        } else {
            Route::Create
        }),
{
    if references.len() == 0 && !head_found {
        Route::Native
    } else {
        Route::Create
    }
}

/// How Git is invoked: variables taken out of its environment, variables set
/// in it, and its leading arguments.
#[derive(Debug)]
pub struct Invocation {
    pub removed: Vec<String>,
    pub set: Vec<(String, Vec<u8>)>,
    pub arguments: Vec<Vec<u8>>,
}

/// Git as a command.
#[derive(Debug, Clone, Copy)]
pub struct Git;

impl Git {
    /// Git in the caller's own context.
    pub fn original(&self) -> (invocation: Invocation)
        ensures
            invocation.removed@.len() == 0,
            invocation.set@.len() == 0,
            invocation.arguments@.len() == 0,
    {
        Invocation { removed: Vec::new(), set: Vec::new(), arguments: Vec::new() }
    }

    /// Git in the worktree at `path`: what locates the caller's repository is
    /// taken out, and the worktree is named explicitly.
    pub fn at(&self, path: &[u8]) -> (invocation: Invocation)
        ensures
            text::texts(invocation.removed@) == seq![
                "GIT_DIR"@,
                "GIT_WORK_TREE"@,
                "GIT_COMMON_DIR"@,
                "GIT_INDEX_FILE"@,
                "GIT_PREFIX"@,
            ],
            invocation.set@.len() == 2,
            invocation.set@[0].0@ == "GIT_DIR"@,
            invocation.set@[0].1@ == paths::joined(path@, ".git".spec_bytes()),
            invocation.set@[1].0@ == "GIT_WORK_TREE"@,
            invocation.set@[1].1@ == path@,
            bytes::views(invocation.arguments@) == seq!["-C".spec_bytes(), path@],
    {
        let mut removed: Vec<String> = Vec::new();
        removed.push("GIT_DIR".to_owned());
        removed.push("GIT_WORK_TREE".to_owned());
        removed.push("GIT_COMMON_DIR".to_owned());
        removed.push("GIT_INDEX_FILE".to_owned());
        removed.push("GIT_PREFIX".to_owned());
        assert(text::texts(removed@) =~= seq![
            "GIT_DIR"@,
            "GIT_WORK_TREE"@,
            "GIT_COMMON_DIR"@,
            "GIT_INDEX_FILE"@,
            "GIT_PREFIX"@,
        ]);
        let mut set: Vec<(String, Vec<u8>)> = Vec::new();
        set.push(("GIT_DIR".to_owned(), paths::join(path, ".git".as_bytes())));
        set.push(("GIT_WORK_TREE".to_owned(), bytes::copy(path)));
        let mut arguments: Vec<Vec<u8>> = Vec::new();
        arguments.push(bytes::copy("-C".as_bytes()));
        arguments.push(bytes::copy(path));
        assert(bytes::views(arguments@) =~= seq!["-C".spec_bytes(), path@]);
        Invocation { removed, set, arguments }
    }

    /// The output of a Git command, and its standard error to pass on.
    pub fn bytes(&self, output: ProcessOutput, written: Option<Result<(), String>>) -> (result:
        Result<(Vec<u8>, Vec<u8>), Error>)
        ensures
            result is Ok <==> output.succeeded() && !(written matches Some(Err(_))),
            result matches Ok((stdout, relayed)) ==> stdout@ == output.stdout@ && relayed@
                == output.stderr@,
            result matches Err(error) ==> error@ == (if !output.succeeded() {
                process::process_failure(output)
            } else {
                Failure::Io(written->0->Err_0@)
            }),
    {
        process::capture(output, written)
    }

    /// The output of a Git command as trimmed text.
    pub fn text(&self, output: ProcessOutput) -> (result: Result<String, Error>)
        ensures
            result is Ok <==> output.succeeded(),
            result matches Ok(shown) ==> shown@ == text::trim(text::lossy_text(output.stdout@)),
            result matches Err(error) ==> error@ == process::process_failure(output),
    {
        match self.bytes(output, None) {
            Ok((stdout, _)) => Ok(process::trimmed_text(stdout.as_slice())),
            Err(error) => Err(error),
        }
    }
}

} // verus!
